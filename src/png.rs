use vstd::prelude::*;
use image::ImageEncoder;
use crate::buffer::{Image, cell_count};
use crate::codec::{pixel_bytes, push_pixel_bytes, quads, read_quads};

verus! {

/// The `image` crate's error type, carried through opaquely.
#[verifier::external_type_specification]
#[verifier::external_body]
pub struct ExImageError(image::ImageError);

/// What decoding a PNG byte string gives: `None` when decoding fails,
/// `Some(None)` when the image is not 8-bit RGBA, and otherwise its width,
/// height and row-major `[R, G, B, A]` bytes.
pub uninterp spec fn png_decoded(bytes: Seq<u8>) -> Option<Option<(u32, u32, Seq<u8>)>>;

/// The PNG encoding of an 8-bit RGBA image of the given size and bytes.
pub uninterp spec fn png_encoded(width: u32, height: u32, raw: Seq<u8>) -> Seq<u8>;

/// A decoded PNG as far as this library reads it.
enum PngPixels {
    Rgba8 { width: u32, height: u32, raw: Vec<u8> },
    Other,
}

/// Relies on `image::load_from_memory_with_format` with `ImageFormat::Png`,
/// whose result depends on the bytes alone. An 8-bit RGBA result is handed out
/// as `ImageBuffer::dimensions` and `ImageBuffer::into_raw`; an `ImageBuffer`
/// never holds fewer than `4 * width * height` bytes (`ImageBuffer::from_raw`
/// checks it).
#[verifier::external_body]
fn decode_png(bytes: &Vec<u8>) -> (r: Result<PngPixels, image::ImageError>)
    ensures
        match r {
            Ok(PngPixels::Rgba8 { width, height, raw }) => {
                &&& png_decoded(bytes@) == Some(Some((width, height, raw@)))
                &&& raw@.len() >= 4 * width * height
            },
            Ok(PngPixels::Other) => png_decoded(bytes@) == Some(None::<(u32, u32, Seq<u8>)>),
            Err(_) => png_decoded(bytes@) is None,
        },
{
    match image::load_from_memory_with_format(bytes, image::ImageFormat::Png) {
        Ok(image::DynamicImage::ImageRgba8(buf)) => {
            let (width, height) = buf.dimensions();
            Ok(PngPixels::Rgba8 { width, height, raw: buf.into_raw() })
        },
        Ok(_) => Ok(PngPixels::Other),
        Err(e) => Err(e),
    }
}

/// Relies on `image::codecs::png::PngEncoder::write_image` with
/// `ColorType::Rgba8`, writing into a fresh `Vec`; it panics unless the buffer
/// holds exactly `4 * width * height` bytes. The underlying `png` encoder
/// refuses a zero width or height; writing into a `Vec` does not fail otherwise.
#[verifier::external_body]
fn encode_png(width: u32, height: u32, raw: &Vec<u8>) -> (r: Result<Vec<u8>, image::ImageError>)
    requires
        raw@.len() == 4 * width * height,
    ensures
        r is Ok <==> (width > 0 && height > 0),
        r matches Ok(b) ==> b@ == png_encoded(width, height, raw@),
{
    let mut out: Vec<u8> = Vec::new();
    let encoder = image::codecs::png::PngEncoder::new(&mut out);
    match encoder.write_image(raw, width, height, image::ColorType::Rgba8) {
        Ok(()) => Ok(out),
        Err(e) => Err(e),
    }
}

/// Why a PNG could not be exported or imported.
#[derive(Debug, Clone, Copy, PartialEq, Eq, Structural)]
pub enum PngError {
    /// The PNG codec failed to encode or decode.
    Codec,
    /// The PNG decoded, but its pixels are not 8-bit RGBA.
    UnsupportedFormat,
    /// The PNG is wider or taller than 65535 cells.
    TooLarge,
}

/// Encodes the image as an 8-bit RGBA PNG.
pub fn export_as_png(image: &Image) -> (r: Result<Vec<u8>, PngError>)
    requires
        image.wf(),
    ensures
        r is Ok <==> (image.width > 0 && image.height > 0),
        match r {
            Ok(b) => b@ == png_encoded(image.width as u32, image.height as u32, pixel_bytes(image.pixels@)),
            Err(e) => e == PngError::Codec,
        },
{
    let mut raw: Vec<u8> = Vec::new();
    push_pixel_bytes(&mut raw, &image.pixels);
    assert(raw@ =~= pixel_bytes(image.pixels@));
    assert(4 * (image.width as int * image.height as int) == 4 * image.width as int * image.height as int)
        by (nonlinear_arith);
    match encode_png(image.width as u32, image.height as u32, &raw) {
        Ok(b) => Ok(b),
        Err(_) => Err(PngError::Codec),
    }
}

/// Builds an image from a decoded 8-bit RGBA PNG of the given size and
/// row-major bytes; bytes after the last pixel are ignored.
pub fn image_from_rgba8(width: u32, height: u32, raw: &Vec<u8>) -> (r: Result<Image, PngError>)
    requires
        raw@.len() >= 4 * width * height,
    ensures
        width > 65535 || height > 65535 ==> r matches Err(PngError::TooLarge),
        width <= 65535 && height <= 65535 ==> (r matches Ok(img) && img.wf() && img.width == width
            && img.height == height && img.pixels@ == quads(raw@, 0, (width * height) as nat)),
{
    if width > 65535 || height > 65535 {
        return Err(PngError::TooLarge);
    }
    let w = width as u16;
    let h = height as u16;
    let n = cell_count(w, h);
    assert(4 * (width as int * height as int) == 4 * width as int * height as int) by (nonlinear_arith);
    let pixels = read_quads(raw, 0, n);
    Ok(Image { width: w, height: h, pixels })
}

/// Decodes a PNG; only 8-bit RGBA pixels are accepted, nothing is converted.
pub fn import_from_png(bytes: &Vec<u8>) -> (r: Result<Image, PngError>)
    ensures
        match png_decoded(bytes@) {
            None => r matches Err(PngError::Codec),
            Some(None) => r matches Err(PngError::UnsupportedFormat),
            Some(Some((w, h, raw))) => if w > 65535 || h > 65535 {
                r matches Err(PngError::TooLarge)
            } else {
                (r matches Ok(img) && img.wf() && img.width == w && img.height == h && img.pixels@
                    == quads(raw, 0, (w * h) as nat))
            },
        },
{
    match decode_png(bytes) {
        Ok(PngPixels::Rgba8 { width, height, raw }) => image_from_rgba8(width, height, &raw),
        Ok(PngPixels::Other) => Err(PngError::UnsupportedFormat),
        Err(_) => Err(PngError::Codec),
    }
}

} // verus!
