//! Decoding of encoded image bytes into the crate's pixel buffers, and
//! the loading pipeline for a standard (non-RAW) base image: decode,
//! then correct the orientation named by the EXIF metadata of the same
//! byte stream, if any.
//!
//! The image codecs, the EXIF reader and the base64 decoder live in
//! outside crates and are reached through the trusted declarations in
//! this module; everything else is verified.

use vstd::prelude::*;
use base64::Engine as _;
use crate::pixel::Rgba8Image;
use crate::orient::{apply_orientation, spec_src_x, spec_src_y, spec_swaps_axes};

verus! {

/// What the image codecs decode `bytes` to, as an RGBA buffer:
/// width, height and `width*height*4` row-major channel bytes, or
/// nothing when no format can be guessed or the data is corrupt.
pub uninterp spec fn spec_rgba_decoded(bytes: Seq<u8>) -> Option<(u32, u32, Seq<u8>)>;

/// What the image codecs decode `bytes` to, as an RGB buffer:
/// width, height and `width*height*3` row-major channel bytes.
pub uninterp spec fn spec_rgb_decoded(bytes: Seq<u8>) -> Option<(u32, u32, Seq<u8>)>;

/// The EXIF orientation value carried by `bytes`, when the stream has
/// readable EXIF metadata with an orientation field.
pub uninterp spec fn spec_exif_orientation(bytes: Seq<u8>) -> Option<u32>;

/// What the standard base64 alphabet with padding decodes `text` to,
/// or nothing when `text` is not valid base64.
pub uninterp spec fn spec_base64_decoded(text: Seq<u8>) -> Option<Seq<u8>>;

/// The Lanczos3 resampling of an RGB buffer of dimensions `w` by `h`
/// to dimensions `tw` by `th`, `tw*th*3` row-major channel bytes.
pub uninterp spec fn spec_lanczos3(w: u32, h: u32, data: Seq<u8>, tw: u32, th: u32) -> Seq<u8>;

/// Relies on image::ImageReader with a guessed format and no size
/// limits, DynamicImage::to_rgba8 and ImageBuffer::into_raw: decoding
/// is a function of the bytes alone, and the raw RGBA buffer holds
/// exactly width*height*4 bytes.
#[verifier::external_body]
pub(crate) fn decode_rgba(bytes: &Vec<u8>) -> (r: Option<(u32, u32, Vec<u8>)>)
    ensures
        r is Some <==> spec_rgba_decoded(bytes@) is Some,
        r matches Some(t) ==> spec_rgba_decoded(bytes@) == Some((t.0, t.1, t.2@))
            && t.2@.len() == t.0 * t.1 * 4,
{
    let cursor = std::io::Cursor::new(bytes.as_slice());
    let mut reader = image::ImageReader::new(cursor).with_guessed_format().ok()?;
    reader.no_limits();
    let img = reader.decode().ok()?;
    let rgba = img.to_rgba8();
    let (w, h) = (rgba.width(), rgba.height());
    Some((w, h, rgba.into_raw()))
}

/// Relies on image::load_from_memory, DynamicImage::to_rgb8 and
/// ImageBuffer::into_raw: decoding is a function of the bytes alone,
/// and the raw RGB buffer holds exactly width*height*3 bytes.
#[verifier::external_body]
pub(crate) fn decode_rgb(bytes: &Vec<u8>) -> (r: Option<(u32, u32, Vec<u8>)>)
    ensures
        r is Some <==> spec_rgb_decoded(bytes@) is Some,
        r matches Some(t) ==> spec_rgb_decoded(bytes@) == Some((t.0, t.1, t.2@))
            && t.2@.len() == t.0 * t.1 * 3,
{
    let img = image::load_from_memory(bytes.as_slice()).ok()?;
    let rgb = img.to_rgb8();
    let (w, h) = (rgb.width(), rgb.height());
    Some((w, h, rgb.into_raw()))
}

/// Relies on exif::Reader::read_from_container, Exif::get_field with
/// the orientation tag of the primary image, and Value::get_uint:
/// reading the metadata is a function of the bytes alone; any failure
/// to read it yields `None`.
#[verifier::external_body]
fn read_exif_orientation(bytes: &Vec<u8>) -> (r: Option<u32>)
    ensures
        r == spec_exif_orientation(bytes@),
{
    let mut cursor = std::io::Cursor::new(bytes.as_slice());
    let exif = exif::Reader::new().read_from_container(&mut cursor).ok()?;
    exif.get_field(exif::Tag::Orientation, exif::In::PRIMARY)
        .and_then(|f| f.value.get_uint(0))
}

/// Relies on base64's STANDARD engine (standard alphabet, padding):
/// decoding is a function of the text alone.
#[verifier::external_body]
pub(crate) fn base64_decode(text: &Vec<u8>) -> (r: Option<Vec<u8>>)
    ensures
        r is Some <==> spec_base64_decoded(text@) is Some,
        r matches Some(v) ==> spec_base64_decoded(text@) == Some(v@),
{
    base64::engine::general_purpose::STANDARD.decode(text.as_slice()).ok()
}

/// Relies on image::imageops::resize with the Lanczos3 filter:
/// resampling is a function of the source pixels and the target
/// dimensions, and the result holds exactly tw*th*3 bytes.
#[verifier::external_body]
pub(crate) fn resize_rgb_lanczos3(w: u32, h: u32, data: Vec<u8>, tw: u32, th: u32) -> (r: Vec<u8>)
    requires
        data@.len() == w * h * 3,
        w >= 1 && h >= 1 && tw >= 1 && th >= 1,
    ensures
        r@ == spec_lanczos3(w, h, data@, tw, th),
        r@.len() == tw * th * 3,
{
    let img: image::RgbImage = image::ImageBuffer::from_raw(w, h, data).unwrap();
    image::imageops::resize(&img, tw, th, image::imageops::FilterType::Lanczos3).into_raw()
}

/// The base image bytes could not be decoded: no container format could
/// be guessed from the stream, or the pixel data is corrupt.
#[derive(Clone, Copy, PartialEq, Eq, Structural, Debug)]
pub struct ImageUnreadable;

/// Decode a standard (non-RAW) image from `bytes` and apply the
/// geometric correction named by the EXIF orientation of the same byte
/// stream. Absent or unreadable EXIF metadata is not an error: the
/// image is returned un-rotated. Succeeds exactly when the bytes decode.
pub fn load_image_with_orientation(bytes: &Vec<u8>) -> (r: Result<Rgba8Image, ImageUnreadable>)
    ensures
        r is Ok <==> spec_rgba_decoded(bytes@) is Some,
        r matches Ok(img) ==> {
            let (w, h, data) = spec_rgba_decoded(bytes@)->Some_0;
            let o = match spec_exif_orientation(bytes@) {
                Some(v) => v,
                None => 1u32,
            };
            &&& img.wf()
            &&& img.width == if spec_swaps_axes(o) { h } else { w }
            &&& img.height == if spec_swaps_axes(o) { w } else { h }
            &&& forall|x: int, y: int, c: int|
                0 <= x < img.width && 0 <= y < img.height && 0 <= c < 4 ==>
                    #[trigger] img.at(x, y, c) == data[
                        (spec_src_y(o, w as int, h as int, x, y) * w
                            + spec_src_x(o, w as int, h as int, x, y)) * 4 + c]
        },
        r matches Ok(img) ==> (spec_exif_orientation(bytes@) == Some(6u32) ==> {
            let (w, h, data) = spec_rgba_decoded(bytes@)->Some_0;
            img.width == h && img.height == w
        }),
{
    let decoded = match decode_rgba(bytes) {
        Some(t) => t,
        None => {
            return Err(ImageUnreadable);
        },
    };
    let (w, h, data) = decoded;
    let base = Rgba8Image { width: w, height: h, data };
    let o: u32 = match read_exif_orientation(bytes) {
        Some(v) => v,
        None => 1,
    };
    let img = apply_orientation(base, o);
    Ok(img)
}

} // verus!
