//! Image fitting vocabulary, and decoding an image from its encoded bytes.

use vstd::prelude::*;

verus! {

#[verifier::external_type_specification]
#[verifier::external_body]
pub struct ExDynamicImage(::image::DynamicImage);

#[verifier::external_type_specification]
#[verifier::external_body]
pub struct ExImageError(::image::ImageError);

/// `image::load_from_memory`: guesses the format from the bytes and decodes
/// them. Nothing is stated of the outcome: besides the bytes it consults two
/// process-wide registries of format-detection and decoding hooks, which any
/// code may fill, and it panics if the lock guarding either was poisoned by a
/// panic during a registration.
#[verifier::external_body]
fn load_from_memory(bytes: &[u8]) -> (r: Result<::image::DynamicImage, ::image::ImageError>) {
    ::image::load_from_memory(bytes)
}

/// The width and height of an image, in pixels.
pub uninterp spec fn image_dimensions(image: ::image::DynamicImage) -> (u32, u32);

/// `DynamicImage::width` and `DynamicImage::height`.
#[verifier::external_body]
fn dimensions(image: &::image::DynamicImage) -> (r: (u32, u32))
    ensures
        r == image_dimensions(*image),
{
    (image.width(), image.height())
}

/// `DynamicImage::clone`: an equal copy of the image.
#[verifier::external_body]
fn clone_image(image: &::image::DynamicImage) -> (r: ::image::DynamicImage)
    ensures
        r == *image,
{
    image.clone()
}

/// The image `DynamicImage::resize` gives with the triangle filter: scaled,
/// aspect ratio preserved, to the largest size that fits within `width` x
/// `height`.
pub uninterp spec fn image_fitted(image: ::image::DynamicImage, width: u32, height: u32) -> ::image::DynamicImage;

/// The image `DynamicImage::resize_exact` gives with the triangle filter:
/// resampled to exactly `width` x `height`, aspect ratio ignored.
pub uninterp spec fn image_stretched(image: ::image::DynamicImage, width: u32, height: u32) -> ::image::DynamicImage;

/// The image `DynamicImage::resize_to_fill` gives with the triangle filter:
/// scaled, aspect ratio preserved, until it covers `width` x `height`, then
/// cropped to it.
pub uninterp spec fn image_filled(image: ::image::DynamicImage, width: u32, height: u32) -> ::image::DynamicImage;

/// `DynamicImage::resize` with the triangle filter. An image already exactly
/// `width` x `height` comes back as a copy of itself (the source checks this
/// before resampling); otherwise its size is computed in floating point and
/// is not stated here.
#[verifier::external_body]
fn resize_to_fit(image: &::image::DynamicImage, width: u32, height: u32) -> (r:
    ::image::DynamicImage)
    ensures
        r == image_fitted(*image, width, height),
        image_dimensions(*image) == (width, height) ==> r == *image,
{
    image.resize(width, height, ::image::imageops::FilterType::Triangle)
}

/// `DynamicImage::resize_exact` with the triangle filter: the result is
/// exactly `width` x `height`.
#[verifier::external_body]
fn resize_exact(image: &::image::DynamicImage, width: u32, height: u32) -> (r:
    ::image::DynamicImage)
    ensures
        r == image_stretched(*image, width, height),
        image_dimensions(r) == (width, height),
{
    image.resize_exact(width, height, ::image::imageops::FilterType::Triangle)
}

/// Whether `DynamicImage::resize_to_fill` can cover a `width` x `height` box
/// from a `source_width` x `source_height` image: the source is not empty,
/// and scaling it to cover the box keeps both of its sides within `u32`
/// (past that the crate clamps the scaled size, and the crop can fall short).
pub open spec fn fill_fits(source_width: u32, source_height: u32, width: u32, height: u32) -> bool {
    &&& source_width > 0
    &&& source_height > 0
    &&& source_width * height <= (u32::MAX - 1) * source_height
    &&& source_height * width <= (u32::MAX - 1) * source_width
}

/// `DynamicImage::resize_to_fill` with the triangle filter: scaled to cover
/// the box, each side rounded from the larger of the two scale factors (so
/// both cover it), then cropped to exactly `width` x `height` where
/// [`fill_fits`] holds. Outside that the size is not stated.
#[verifier::external_body]
fn resize_to_fill(image: &::image::DynamicImage, width: u32, height: u32) -> (r:
    ::image::DynamicImage)
    ensures
        r == image_filled(*image, width, height),
        fill_fits(image_dimensions(*image).0, image_dimensions(*image).1, width, height)
            ==> image_dimensions(r) == (width, height),
{
    image.resize_to_fill(width, height, ::image::imageops::FilterType::Triangle)
}

/// How the image fills the box it was given (CSS `object-fit`).
///
/// CSS's `none` (natural size, overflowing) is deliberately absent: atlas
/// pages are fixed in size and allocation fails above that, so a
/// natural-resolution photo would fail to draw at all. `ScaleDown` is the
/// usable half of that intent.
#[derive(Debug, Clone, Copy, PartialEq, Eq, Hash, Default)]
pub enum ObjectFit {
    /// Fit inside the box, preserving aspect ratio; the leftover is
    /// letterboxed.
    #[default]
    Contain,
    /// Stretch to the box exactly, ignoring aspect ratio.
    Fill,
    /// Cover the box, preserving aspect ratio; the overflow is cropped.
    Cover,
    /// Natural size, shrunk to fit only if it is larger than the box.
    ScaleDown,
}

impl ObjectFit {
    /// Produce the pixels to upload for a `target`-sized box: one call into
    /// the `image` crate's resize family per variant, so the semantics are
    /// exactly that crate's.
    pub fn apply(self, decoded: &::image::DynamicImage, target: [u32; 2]) -> (r:
        ::image::DynamicImage)
        ensures
            self == ObjectFit::Contain ==> r == image_fitted(*decoded, target[0], target[1]),
            self == ObjectFit::Fill ==> r == image_stretched(*decoded, target[0], target[1]),
            self == ObjectFit::Fill ==> image_dimensions(r) == (target[0], target[1]),
            self == ObjectFit::Cover ==> r == image_filled(*decoded, target[0], target[1]),
            self == ObjectFit::Cover && fill_fits(
                image_dimensions(*decoded).0,
                image_dimensions(*decoded).1,
                target[0],
                target[1],
            ) ==> image_dimensions(r) == (target[0], target[1]),
            self == ObjectFit::ScaleDown ==> r == (if image_dimensions(*decoded).0 <= target[0]
                && image_dimensions(*decoded).1 <= target[1] {
                *decoded
            } else {
                image_fitted(*decoded, target[0], target[1])
            }),
            self == ObjectFit::Contain && image_dimensions(*decoded) == (target[0], target[1])
                ==> r == *decoded,
    {
        match self {
            ObjectFit::Contain => resize_to_fit(decoded, target[0], target[1]),
            ObjectFit::Fill => resize_exact(decoded, target[0], target[1]),
            ObjectFit::Cover => resize_to_fill(decoded, target[0], target[1]),
            ObjectFit::ScaleDown => {
                let (w, h) = dimensions(decoded);
                if w <= target[0] && h <= target[1] {
                    clone_image(decoded)
                } else {
                    resize_to_fit(decoded, target[0], target[1])
                }
            },
        }
    }
}

/// The declared [`ObjectFit`], carried so a change to it can be detected.
#[derive(Clone, Copy, PartialEq, Eq, Debug)]
pub struct ImageFit(pub ObjectFit);

/// What a decoding attempt hands the widget: the image, or `None` for any
/// error.
pub fn decoded_image(result: Result<::image::DynamicImage, ::image::ImageError>) -> (r: Option<
    ::image::DynamicImage,
>)
    ensures
        match result {
            Ok(image) => r == Some(image),
            Err(_) => r is None,
        },
{
    match result {
        Ok(image) => Some(image),
        Err(_) => None,
    }
}

/// Decode in-memory encoded image bytes (PNG, JPEG, ...), or `None` when they
/// do not decode. Which of the two comes back rests on the `image` crate's
/// process-wide decoding hooks as well as on the bytes, so it is not stated.
pub fn decode_bytes(bytes: &[u8]) -> (r: Option<::image::DynamicImage>) {
    decoded_image(load_from_memory(bytes))
}

} // verus!
