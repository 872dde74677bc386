use vstd::prelude::*;

use crate::color::{blend_over_white, blend_over_white_spec, Rgb8};

verus! {

/// The `image` crate's decoding error, carried through without looking inside.
#[verifier::external_type_specification]
#[verifier::external_body]
pub struct ExImageError(image::ImageError);

/// A decoded image as 8-bit RGBA samples, row by row.
pub struct DecodedImage {
    pub width: u32,
    pub height: u32,
    pub rgba: Vec<u8>,
}

/// What the `image` crate makes of `bytes` read as the built-in format that
/// `image::guess_format` finds from their first bytes: the width, height and RGBA samples,
/// or `None` when no format is recognised or decoding fails. Both calls read the bytes
/// alone: `guess_format` checks built-in magic numbers only, and a built-in format goes
/// to a built-in decoder with the default limits.
pub uninterp spec fn guessed_decode(bytes: Seq<u8>) -> Option<(u32, u32, Seq<u8>)>;

/// What the `image` crate makes of `bytes` read as the format that `extension` names:
/// `None` when the extension names no format, `Some(None)` when decoding fails.
pub uninterp spec fn extension_decode(bytes: Seq<u8>, extension: Seq<char>) -> Option<
    Option<(u32, u32, Seq<u8>)>,
>;

/// Trusted: `image::guess_format`, then `image::load_from_memory_with_format` and
/// `to_rgba8`. The result is named by `guessed_decode`; nothing is claimed about which
/// inputs decode.
#[verifier::external_body]
fn decode_guessed(bytes: &[u8]) -> (res: Result<DecodedImage, image::ImageError>)
    ensures
        match res {
            Ok(img) => guessed_decode(bytes@) == Some((img.width, img.height, img.rgba@)),
            Err(_) => guessed_decode(bytes@) is None,
        },
{
    let format = image::guess_format(bytes)?;
    match image::load_from_memory_with_format(bytes, format) {
        Ok(img) => {
            let rgba = img.to_rgba8();
            Ok(DecodedImage { width: rgba.width(), height: rgba.height(), rgba: rgba.into_raw() })
        },
        Err(e) => Err(e),
    }
}

/// Trusted: `image::ImageFormat::from_extension`, then `image::load_from_memory_with_format`
/// and `to_rgba8`. The result is named by `extension_decode`.
#[verifier::external_body]
fn decode_with_extension(bytes: &[u8], extension: &str) -> (res: Option<
    Result<DecodedImage, image::ImageError>,
>)
    ensures
        match res {
            None => extension_decode(bytes@, extension@) is None,
            Some(Err(_)) => extension_decode(bytes@, extension@) == Some(
                None::<(u32, u32, Seq<u8>)>,
            ),
            Some(Ok(img)) => extension_decode(bytes@, extension@) == Some(
                Some((img.width, img.height, img.rgba@)),
            ),
        },
{
    let format = image::ImageFormat::from_extension(extension)?;
    match image::load_from_memory_with_format(bytes, format) {
        Ok(img) => {
            let rgba = img.to_rgba8();
            Some(Ok(DecodedImage { width: rgba.width(), height: rgba.height(), rgba: rgba.into_raw() }))
        },
        Err(e) => Some(Err(e)),
    }
}

/// Trusted: the `Display` text of an `image::ImageError`; nothing is claimed about it.
#[verifier::external_body]
fn describe_image_error(error: &image::ImageError) -> String {
    error.to_string()
}

/// The pixel at `index` of RGBA samples.
pub open spec fn rgba_pixel_spec(rgba: Seq<u8>, index: int) -> [u8; 4] {
    [rgba[4 * index], rgba[4 * index + 1], rgba[4 * index + 2], rgba[4 * index + 3]]
}

/// The visible pixels among the first `n` RGBA pixels, composited over white, in order.
pub open spec fn visible_prefix_spec(rgba: Seq<u8>, n: nat) -> Seq<Rgb8>
    decreases n,
{
    if n == 0 {
        Seq::empty()
    } else {
        let before = visible_prefix_spec(rgba, (n - 1) as nat);
        match blend_over_white_spec(rgba_pixel_spec(rgba, n - 1)) {
            Some(p) => before.push(p),
            None => before,
        }
    }
}

/// The visible pixels of RGBA samples (trailing samples short of a pixel are ignored).
pub open spec fn visible_pixels_spec(rgba: Seq<u8>) -> Seq<Rgb8> {
    visible_prefix_spec(rgba, rgba.len() / 4)
}

/// Composites every pixel of RGBA samples over white, dropping fully transparent ones.
pub fn visible_pixels(rgba: &Vec<u8>) -> (pixels: Vec<Rgb8>)
    ensures
        pixels@ == visible_pixels_spec(rgba@),
{
    let n = rgba.len() / 4;
    let mut pixels: Vec<Rgb8> = Vec::new();
    let mut i: usize = 0;
    while i < n
        invariant
            n == rgba@.len() / 4,
            i <= n,
            pixels@ == visible_prefix_spec(rgba@, i as nat),
        decreases n - i,
    {
        assert(4 * i + 3 < rgba@.len()) by (nonlinear_arith)
            requires
                i < n,
                n == rgba@.len() / 4,
        ;
        assert(rgba@.len() == rgba.len());
        let base = 4 * i;
        let pixel = [rgba[base], rgba[base + 1], rgba[base + 2], rgba[base + 3]];
        assert(pixel@ == rgba_pixel_spec(rgba@, i as int)@);
        match blend_over_white(pixel) {
            Some(p) => pixels.push(p),
            None => {},
        }
        i = i + 1;
    }
    pixels
}

/// Why an image yields no pixels to analyse.
pub enum LoadError {
    /// The file extension names no image format.
    UnknownFormat,
    /// The bytes do not decode; the decoder's explanation.
    Undecodable(String),
    /// Every pixel is fully transparent.
    NoVisiblePixels,
}

/// An image's size and its visible pixels, composited over white.
pub struct LoadedPixels {
    pub width: u32,
    pub height: u32,
    pub pixels: Vec<Rgb8>,
}

/// The characters of an optional extension.
pub open spec fn extension_view(extension: Option<&str>) -> Option<Seq<char>> {
    match extension {
        Some(e) => Some(e@),
        None => None,
    }
}

/// What decoding gives for the bytes: by the extension's format when there is one, else by
/// the format guessed from the content.
pub open spec fn decoded_spec(bytes: Seq<u8>, extension: Option<Seq<char>>) -> Option<
    Option<(u32, u32, Seq<u8>)>,
> {
    match extension {
        Some(e) => extension_decode(bytes, e),
        None => Some(guessed_decode(bytes)),
    }
}

/// Decodes image bytes and keeps the visible pixels, composited over white. The format is
/// the one the extension names when one is given, else the one guessed from the content.
pub fn load_pixels(bytes: &[u8], extension: Option<&str>) -> (res: Result<LoadedPixels, LoadError>)
    ensures
        decoded_spec(bytes@, extension_view(extension)) is None <==> res matches Err(
            LoadError::UnknownFormat,
        ),
        decoded_spec(bytes@, extension_view(extension)) == Some(None::<(u32, u32, Seq<u8>)>)
            <==> res matches Err(LoadError::Undecodable(_)),
        decoded_spec(bytes@, extension_view(extension)) matches Some(Some((w, h, rgba))) ==> {
            if visible_pixels_spec(rgba).len() == 0 {
                res matches Err(LoadError::NoVisiblePixels)
            } else {
                res matches Ok(loaded) && loaded.width == w && loaded.height == h
                    && loaded.pixels@ == visible_pixels_spec(rgba)
            }
        },
{
    let decoded = match extension {
        Some(e) => match decode_with_extension(bytes, e) {
            None => {
                return Err(LoadError::UnknownFormat);
            },
            Some(r) => r,
        },
        None => decode_guessed(bytes),
    };
    match decoded {
        Err(error) => Err(LoadError::Undecodable(describe_image_error(&error))),
        Ok(image) => {
            let pixels = visible_pixels(&image.rgba);
            if pixels.len() == 0 {
                Err(LoadError::NoVisiblePixels)
            } else {
                Ok(LoadedPixels { width: image.width, height: image.height, pixels })
            }
        },
    }
}

} // verus!
