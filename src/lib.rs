//! Raster-to-vector conversion: colour quantisation, region labelling,
//! boundary tracing, polyline simplification and SVG output.
use vstd::prelude::*;

pub mod color;
pub mod text;
pub mod wide;
pub mod options;
pub mod raster;
pub mod palette;
pub mod quantize;
pub mod components;
pub mod simplify;
pub mod contour;
pub mod render;
pub mod cli;

use crate::options::VectorizeOptions;
use crate::quantize::{QuantizedImage, quantize_image, quantize_post};
use crate::raster::{RasterImage, pixels_of_bytes};
use crate::render::{render_svg, svg_post};

verus! {

#[verifier::external_type_specification]
#[verifier::external_body]
pub struct ExImageError(image::ImageError);

/// Why a conversion failed.
#[derive(Debug)]
pub enum VectorizeError {
    /// The bytes could not be decoded as an image.
    Decode(image::ImageError),
    /// The decoded image cannot be vectorised.
    Vectorize(String),
}

/// Width, height and row-major RGBA bytes of the image encoded by `bytes`, or
/// `None` when they do not decode.
pub uninterp spec fn decoded_rgba(bytes: Seq<u8>) -> Option<(u32, u32, Seq<u8>)>;

/// Relies on `image::load_from_memory_with_format` with `ImageFormat::Png`,
/// which decodes the bytes as PNG with the built-in decoder (a built-in format
/// consults no format-detection or decoding hook), and on
/// `DynamicImage::to_rgba8` and `ImageBuffer::into_raw`, which give the size and
/// the RGBA bytes. The outcome depends on the bytes alone. An `ImageBuffer` is
/// made either by `ImageBuffer::new`, which allocates exactly four bytes per
/// pixel for RGBA, or by `ImageBuffer::from_raw`, which refuses a container
/// too small for its size, so the raw buffer holds at least `4 * w * h` bytes.
#[verifier::external_body]
fn decode_rgba(bytes: &[u8]) -> (r: Result<(u32, u32, Vec<u8>), image::ImageError>)
    ensures
        match r {
            Ok(t) => decoded_rgba(bytes@) == Some((t.0, t.1, t.2@)) && t.2@.len() >= 4 * (t.0
                * t.1),
            Err(_) => decoded_rgba(bytes@) is None,
        },
{
    let img = image::load_from_memory_with_format(bytes, image::ImageFormat::Png)?;
    let rgba = img.to_rgba8();
    Ok((rgba.width(), rgba.height(), rgba.into_raw()))
}

/// Converts a decoded image into an SVG document: the document renders the
/// image's quantisation.
pub fn vectorize_image(image: &RasterImage, options: &VectorizeOptions) -> (r: String)
    requires
        image.wf(),
    ensures
        exists|q: QuantizedImage| quantize_post(*image, *options, q) && svg_post(q, *options, r@),
{
    let quantized = quantize_image(image, options);
    let r = render_svg(&quantized, options);
    assert(quantize_post(*image, *options, quantized) && svg_post(quantized, *options, r@));
    r
}

/// The SVG document of the decoded image `t` under `options`.
pub open spec fn rendered(t: (u32, u32, Seq<u8>), options: VectorizeOptions, text: Seq<char>) -> bool {
    exists|image: RasterImage, q: QuantizedImage|
        image.wf() && image.width == t.0 && image.height == t.1 && image.pixels@ == pixels_of_bytes(
            t.2,
            t.0 * t.1,
        ) && quantize_post(image, options, q) && svg_post(q, options, text)
}

/// Decodes a PNG image and converts it into an SVG document. Fails, with
/// `Decode`, exactly when the bytes do not decode; otherwise the document
/// renders the decoded image's quantisation.
pub fn png_to_svg(png_bytes: &[u8], options: &VectorizeOptions) -> (r: Result<String, VectorizeError>)
    ensures
        match decoded_rgba(png_bytes@) {
            None => r matches Err(VectorizeError::Decode(_)),
            Some(t) => r matches Ok(s) && rendered(t, *options, s@),
        },
{
    match decode_rgba(png_bytes) {
        Err(e) => Err(VectorizeError::Decode(e)),
        Ok((width, height, raw)) => {
            let ghost t = (width, height, raw@);
            let image = RasterImage::from_rgba_bytes(width, height, &raw);
            let s = vectorize_image(&image, options);
            proof {
                let q = choose|q: QuantizedImage|
                    quantize_post(image, *options, q) && svg_post(q, *options, s@);
                assert(image.wf() && image.width == t.0 && image.height == t.1 && image.pixels@
                    == pixels_of_bytes(t.2, t.0 * t.1) && quantize_post(image, *options, q)
                    && svg_post(q, *options, s@));
            }
            Ok(s)
        },
    }
}

} // verus!
