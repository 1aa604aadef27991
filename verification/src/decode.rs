//! Encoded images, decoded by the `image` crate.

use crate::buffer::{loaded, raw_load, GrayBuffer};
use crate::error::ImageFault;
use crate::raster::Raster;
use vstd::prelude::*;

verus! {

/// `image::ImageError`, carried through as it comes.
#[verifier::external_type_specification]
#[verifier::external_body]
pub struct ExImageError(image::ImageError);

/// `image::DynamicImage`, carried through as it comes.
#[verifier::external_type_specification]
#[verifier::external_body]
pub struct ExDynamicImage(image::DynamicImage);

/// `image::load_from_memory` guesses the format of an encoded image from its
/// first bytes and decodes it. Nothing is claimed of what it returns: the
/// JPEG decoder behind it picks its routines by the processor it runs on, and
/// they round differently, so one sequence of bytes has no one answer.
pub assume_specification[ image::load_from_memory ](encoded: &[u8]) -> (r: image::ImageResult<
    image::DynamicImage,
>)
;

/// Whether a decoded image is one of the eight kinds that hold whole samples
/// of 8 or 16 bits: grey or colour, each with or without transparency.
pub uninterp spec fn has_whole_samples(img: image::DynamicImage) -> bool;

/// Tells the kinds of `image::DynamicImage` apart: `true` for the eight
/// variants of whole samples, `false` for every other. The contract gives the
/// answer its name, as it is read off the image and depends on nothing else.
#[verifier::external_body]
fn whole_samples(img: &image::DynamicImage) -> (whole: bool)
    ensures
        whole == has_whole_samples(*img),
{
    match img {
        image::DynamicImage::ImageLuma8(_) => true,
        image::DynamicImage::ImageLumaA8(_) => true,
        image::DynamicImage::ImageRgb8(_) => true,
        image::DynamicImage::ImageRgba8(_) => true,
        image::DynamicImage::ImageLuma16(_) => true,
        image::DynamicImage::ImageLumaA16(_) => true,
        image::DynamicImage::ImageRgb16(_) => true,
        image::DynamicImage::ImageRgba16(_) => true,
        _ => false,
    }
}

/// The 8-bit luminances that a decoded image holds, row after row, with its
/// width and height, as `DynamicImage::to_luma8` converts them.
pub uninterp spec fn luma_of(img: image::DynamicImage) -> (Seq<u8>, nat, nat);

/// The 8-bit luminances of a decoded image, row after row, with its width and
/// height: `DynamicImage::to_luma8`, then `dimensions` and `into_raw` of the
/// buffer it returns. The contract gives the three their name, as they are
/// computed from the image and nothing else, and claims that the buffer
/// holds one value for each pixel. It is for images of whole samples: the
/// conversion of any other sample fails where the sample is no number.
#[verifier::external_body]
fn luma8(img: &image::DynamicImage) -> (r: (Vec<u8>, u32, u32))
    requires
        has_whole_samples(*img),
    ensures
        (r.0@, r.1 as nat, r.2 as nat) == luma_of(*img),
        r.0@.len() == r.1 * r.2,
{
    let gray = img.to_luma8();
    let (width, height) = gray.dimensions();
    (gray.into_raw(), width, height)
}

/// The width and height that a decoded image holds, as
/// `GenericImageView::dimensions` reads them off it.
pub uninterp spec fn shape_of(img: image::DynamicImage) -> (nat, nat);

/// The width and height of a decoded image: `GenericImageView::dimensions`.
/// The contract gives them their name: they are read off the image and
/// depend on nothing else.
#[verifier::external_body]
fn dimensions(img: &image::DynamicImage) -> (r: (u32, u32))
    ensures
        (r.0 as nat, r.1 as nat) == shape_of(*img),
{
    image::GenericImageView::dimensions(img)
}

/// The decoder's account of an error: `ImageError`'s `to_string`. Nothing is
/// claimed of the text: where the error is one of input and output, the
/// operating system words it, in the language of the process's locale.
#[verifier::external_body]
fn describe(error: &image::ImageError) -> (message: String) {
    error.to_string()
}

/// The raster of a decoded image, or why it is refused: `FractionalSamples`
/// for an image that does not hold whole samples, and else what is made of
/// its 8-bit luminances, taken as raw pixels.
pub open spec fn dynamic_load(img: image::DynamicImage) -> Result<Raster, ImageFault> {
    if has_whole_samples(img) {
        raw_load(luma_of(img).0, luma_of(img).1 as usize, luma_of(img).2 as usize)
    } else {
        Err(ImageFault::FractionalSamples)
    }
}

/// The grayscale buffer of a decoded image. An image that does not hold
/// whole samples is refused, and so is one beyond the size of a raster.
pub fn from_dynamic(img: &image::DynamicImage) -> (r: Result<GrayBuffer, ImageFault>)
    ensures
        loaded(r) == dynamic_load(*img),
        r matches Ok(buffer) ==> buffer.wf() && buffer@.unit == 1,
        r matches Err(fault) ==> fault is TooLarge || fault is FractionalSamples,
{
    if !whole_samples(img) {
        return Err(ImageFault::FractionalSamples);
    }
    let (pixels, width, height) = luma8(img);
    GrayBuffer::from_raw(pixels, width as usize, height as usize)
}

/// What is made of a decoder's answer: the buffer of the image that was
/// decoded, or why that image is refused, and `Undecodable` for the error of
/// decoding.
pub open spec fn is_load_outcome(
    decoded: Result<image::DynamicImage, image::ImageError>,
    r: Result<GrayBuffer, ImageFault>,
) -> bool {
    &&& r matches Ok(buffer) ==> buffer.wf() && buffer@.unit == 1
    &&& r matches Err(fault) ==> fault is TooLarge || fault is Undecodable
        || fault is FractionalSamples
    &&& match decoded {
        Ok(img) => loaded(r) == dynamic_load(img),
        Err(_) => r matches Err(fault) && fault is Undecodable,
    }
}

/// What became of a decoded image, or of the error of decoding.
pub fn from_decoded(decoded: Result<image::DynamicImage, image::ImageError>) -> (r: Result<
    GrayBuffer,
    ImageFault,
>)
    ensures
        is_load_outcome(decoded, r),
{
    match decoded {
        Ok(img) => from_dynamic(&img),
        Err(error) => Err(ImageFault::Undecodable { message: describe(&error) }),
    }
}

/// Decodes an encoded image to a grayscale buffer. What is returned is what
/// `from_decoded` returns for the decoder's answer to the bytes.
pub fn load_image_from_bytes(data: &[u8]) -> (r: Result<GrayBuffer, ImageFault>)
    ensures
        exists|decoded: Result<image::DynamicImage, image::ImageError>| #[trigger]
            is_load_outcome(decoded, r),
        r matches Ok(buffer) ==> buffer.wf() && buffer@.unit == 1,
        r matches Err(fault) ==> fault is TooLarge || fault is Undecodable
            || fault is FractionalSamples,
{
    let decoded = image::load_from_memory(data);
    let r = from_decoded(decoded);
    proof {
        assert(is_load_outcome(decoded, r));
    }
    r
}

/// What is made of a decoder's answer where only the size of the image is
/// asked for: the width and height of the image that was decoded, and
/// `Undecodable` for the error of decoding.
pub open spec fn is_size_outcome(
    decoded: Result<image::DynamicImage, image::ImageError>,
    r: Result<(u32, u32), ImageFault>,
) -> bool {
    match decoded {
        Ok(img) => r matches Ok(size) && (size.0 as nat, size.1 as nat) == shape_of(img),
        Err(_) => r matches Err(fault) && fault is Undecodable,
    }
}

/// The width and height of a decoded image, or the error of decoding.
pub fn size_of_decoded(decoded: Result<image::DynamicImage, image::ImageError>) -> (r: Result<
    (u32, u32),
    ImageFault,
>)
    ensures
        is_size_outcome(decoded, r),
{
    match decoded {
        Ok(img) => Ok(dimensions(&img)),
        Err(error) => Err(ImageFault::Undecodable { message: describe(&error) }),
    }
}

/// The width and height of an encoded image. What is returned is what
/// `size_of_decoded` returns for the decoder's answer to the bytes: the
/// size of the image it decoded, or `Undecodable` where it decoded none.
pub fn get_image_size_bytes(data: &[u8]) -> (r: Result<(u32, u32), ImageFault>)
    ensures
        exists|decoded: Result<image::DynamicImage, image::ImageError>| #[trigger]
            is_size_outcome(decoded, r),
        r matches Err(fault) ==> fault is Undecodable,
{
    let decoded = image::load_from_memory(data);
    let r = size_of_decoded(decoded);
    proof {
        assert(is_size_outcome(decoded, r));
    }
    r
}

} // verus!
