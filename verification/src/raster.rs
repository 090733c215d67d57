//! Pixels in memory, and where they come from.

use vstd::prelude::*;

use crate::scale;

verus! {

/// Why an image cannot be shown.
#[derive(Clone, Copy, Debug, Eq, PartialEq)]
pub enum DecodeError {
    /// The bytes are neither a PNG nor a GIF file.
    Unsupported,
    /// The bytes cannot be decoded, or the image is beyond the decoder's limits.
    Malformed,
    /// The GIF holds no frame.
    NoFrames,
    /// The GIF holds more frames than are shown.
    TooManyFrames,
    /// The frames of the GIF take more memory than is granted.
    AnimationTooLarge,
    /// The image would be shown at a size beyond those that images are scaled to.
    ScaledTooLarge,
}

impl DecodeError {
    /// The error in words.
    pub fn message(self) -> (r: &'static str)
        ensures
            r@ == match self {
                DecodeError::Unsupported => "unsupported image format"@,
                DecodeError::Malformed => "invalid image"@,
                DecodeError::NoFrames => "gif has no frames"@,
                DecodeError::TooManyFrames => "gif has too many frames"@,
                DecodeError::AnimationTooLarge => "gif animation is too large"@,
                DecodeError::ScaledTooLarge => "scaled image is too large"@,
            },
    {
        match self {
            DecodeError::Unsupported => "unsupported image format",
            DecodeError::Malformed => "invalid image",
            DecodeError::NoFrames => "gif has no frames",
            DecodeError::TooManyFrames => "gif has too many frames",
            DecodeError::AnimationTooLarge => "gif animation is too large",
            DecodeError::ScaledTooLarge => "scaled image is too large",
        }
    }
}

/// An image: `height` rows of `width` pixels, each a red, a green, a blue and an alpha byte.
pub struct Pixmap {
    pub width: u32,
    pub height: u32,
    pub rgba: Vec<u8>,
}

/// What a [`Pixmap`] holds.
pub ghost struct Raster {
    pub width: u32,
    pub height: u32,
    pub rgba: Seq<u8>,
}

impl Raster {
    /// There are four bytes for each pixel.
    pub open spec fn wf(self) -> bool {
        self.rgba.len() == 4 * (self.width * self.height)
    }

    /// The position of the first byte of the pixel in column `x` of row `y`.
    pub open spec fn offset(self, x: int, y: int) -> int {
        4 * (y * self.width + x)
    }
}

impl View for Pixmap {
    type V = Raster;

    open spec fn view(&self) -> Raster {
        Raster { width: self.width, height: self.height, rgba: self.rgba@ }
    }
}

/// The errors of the `image` crate.
#[verifier::external_type_specification]
#[verifier::external_body]
pub struct ExImageError(image::ImageError);

/// The pixels of a PNG file, or nothing where it cannot be decoded.
pub uninterp spec fn png_raster(bytes: Seq<u8>) -> Option<Raster>;

/// Calls `image::load_from_memory_with_format` for a PNG file and takes the pixels as RGBA.
///
/// Trusted: whether this succeeds, and with which pixels, depends on the bytes alone, and
/// there are four bytes for each pixel.
#[verifier::external_body]
pub(crate) fn decode_png(bytes: &[u8]) -> (r: Result<Pixmap, image::ImageError>)
    ensures
        match r {
            Ok(pixmap) => png_raster(bytes@) == Some(pixmap@) && pixmap@.wf(),
            Err(_) => png_raster(bytes@) is None,
        },
{
    let buffer = image::load_from_memory_with_format(bytes, image::ImageFormat::Png)?.to_rgba8();
    let (width, height) = buffer.dimensions();
    Ok(Pixmap { width, height, rgba: buffer.into_raw() })
}

/// The longest side that an image is scaled to.
///
/// The filter finds its pixels in single precision. Up to this side that is off by less than a
/// third of a pixel of the scaled image, so it always finds some; far beyond it finds none and
/// panics.
pub const MAX_SCALED_SIDE: u32 = 0x10_0000;

/// `image` is one of the images that the Lanczos filter can make of `source` within
/// `max_width` by `max_height` pixels. It weighs the pixels by the sine of the platform, so
/// there may be several.
pub uninterp spec fn can_resize_to(
    source: Raster,
    max_width: u32,
    max_height: u32,
    image: Raster,
) -> bool;

/// Calls `image::DynamicImage::resize` with the Lanczos filter.
///
/// Trusted: the result is one that the filter can make of the source, it is as large as
/// `max_width` by `max_height` pixels allow for an image of that shape, there are four bytes
/// for each pixel, an image that keeps its size keeps its pixels, and one without pixels comes
/// out transparent. Nothing more is said of the pixels: they depend on the platform.
#[verifier::external_body]
pub(crate) fn resize(pixmap: Pixmap, max_width: u32, max_height: u32) -> (r: Pixmap)
    requires
        pixmap@.wf(),
        1 <= max_width <= scale::larger(pixmap.width as int, 1),
        1 <= max_height <= scale::larger(pixmap.height as int, 1),
        max_width <= MAX_SCALED_SIDE,
        max_height <= MAX_SCALED_SIDE,
    ensures
        r@.wf(),
        (r.width as int, r.height as int) == scale::fitted(
            pixmap.width as int,
            pixmap.height as int,
            max_width as int,
            max_height as int,
        ),
        can_resize_to(pixmap@, max_width, max_height, r@),
        r.width == pixmap.width && r.height == pixmap.height ==> r@ == pixmap@,
        pixmap@.rgba.len() == 0 ==> forall|i: int| 0 <= i < r@.rgba.len() ==> r@.rgba[i] == 0,
{
    let buffer = image::RgbaImage::from_raw(pixmap.width, pixmap.height, pixmap.rgba).unwrap();
    let resized = image::DynamicImage::ImageRgba8(buffer)
        .resize(max_width, max_height, image::imageops::FilterType::Lanczos3)
        .to_rgba8();
    let (width, height) = resized.dimensions();
    Pixmap { width, height, rgba: resized.into_raw() }
}

/// No two errors read alike, and each says something.
pub proof fn law_errors_are_told_apart(
    a: DecodeError,
    b: DecodeError,
    x: &'static str,
    y: &'static str,
)
    requires
        call_ensures(DecodeError::message, (a,), x),
        call_ensures(DecodeError::message, (b,), y),
    ensures
        x@.len() > 0,
        x@ == y@ ==> a == b,
{
    reveal_strlit("unsupported image format");
    reveal_strlit("invalid image");
    reveal_strlit("gif has no frames");
    reveal_strlit("gif has too many frames");
    reveal_strlit("gif animation is too large");
    reveal_strlit("scaled image is too large");
    assert("unsupported image format"@.len() == 24);
    assert("invalid image"@.len() == 13);
    assert("gif has no frames"@.len() == 17);
    assert("gif has too many frames"@.len() == 23);
    assert("gif animation is too large"@.len() == 26);
    assert("scaled image is too large"@.len() == 25);
}

} // verus!
