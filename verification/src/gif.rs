//! The frames of a GIF file, as far as they are shown.

use vstd::prelude::*;

use crate::config::Config;
use crate::raster::{DecodeError, Pixmap, Raster};

verus! {

pub const DEFAULT_GIF_FRAME_DELAY_MS: i32 = 40;

/// A GIF with more frames is not shown as an animation.
pub const KITTY_GIF_MAX_FRAMES: usize = 256;

/// The sides of a GIF up to which it is decoded, unless the user allows larger ones.
pub const KITTY_GIF_MAX_DIMENSION: u32 = 8192;

/// The memory that the decoder of a GIF may take.
pub const KITTY_GIF_MAX_DECODER_ALLOC_BYTES: u64 = 67_108_864;

/// The memory that all frames of a GIF may take together.
pub const KITTY_GIF_MAX_TOTAL_RGBA_BYTES: u64 = 134_217_728;

/// A frame as it is decoded. It is shown for `numerator / denominator` milliseconds.
pub struct DecodedFrame {
    pub width: u32,
    pub height: u32,
    pub numerator: u32,
    pub denominator: u32,
    pub rgba: Vec<u8>,
}

/// What a [`DecodedFrame`] holds.
pub ghost struct FrameData {
    pub width: u32,
    pub height: u32,
    pub numerator: u32,
    pub denominator: u32,
    pub rgba: Seq<u8>,
}

impl View for DecodedFrame {
    type V = FrameData;

    open spec fn view(&self) -> FrameData {
        FrameData {
            width: self.width,
            height: self.height,
            numerator: self.numerator,
            denominator: self.denominator,
            rgba: self.rgba@,
        }
    }
}

/// A frame as it is shown.
#[derive(Clone, Debug)]
pub struct GifFrame {
    pub width: u32,
    pub height: u32,
    pub delay_ms: i32,
    pub rgba: Vec<u8>,
}

/// What a [`GifFrame`] holds.
pub ghost struct ShownFrame {
    pub width: u32,
    pub height: u32,
    pub delay_ms: i32,
    pub rgba: Seq<u8>,
}

impl View for GifFrame {
    type V = ShownFrame;

    open spec fn view(&self) -> ShownFrame {
        ShownFrame {
            width: self.width,
            height: self.height,
            delay_ms: self.delay_ms,
            rgba: self.rgba@,
        }
    }
}

/// What can be said of an animation before it is shown.
#[derive(Clone, Copy, Debug, Eq, PartialEq)]
pub struct GifAnimationStats {
    pub frame_count: usize,
}

/// The frames that the `image` crate reads from a file, one after the other.
#[verifier::external_type_specification]
#[verifier::external_body]
pub struct ExFrames<'a>(image::Frames<'a>);

/// A frame of the `image` crate.
#[verifier::external_type_specification]
#[verifier::external_body]
pub struct ExFrame(image::Frame);

/// The frames that are still to be read without an error.
pub uninterp spec fn frames_ahead(frames: image::Frames<'_>) -> Seq<FrameData>;

/// After the frames ahead comes an error, and not the end of the file.
pub uninterp spec fn breaks_off(frames: image::Frames<'_>) -> bool;

/// The frames of a GIF file up to its end or its first error, and whether it was an error;
/// nothing where the file cannot be opened within the limits.
pub uninterp spec fn gif_stream(
    bytes: Seq<u8>,
    max_width: u32,
    max_height: u32,
    max_alloc: u64,
) -> Option<(Seq<FrameData>, bool)>;

/// Opens a GIF file with `image::codecs::gif::GifDecoder::new`, hands the limits on its sides
/// and on the decoder's memory to `ImageDecoder::set_limits`, and takes the frames with
/// `AnimationDecoder::into_frames`.
///
/// Trusted: whether this succeeds, and which frames can then be read, depends on the bytes
/// and the limits alone.
#[verifier::external_body]
fn open_gif(bytes: &[u8], max_width: u32, max_height: u32, max_alloc: u64) -> (r: Result<
    image::Frames<'_>,
    image::ImageError,
>)
    ensures
        match r {
            Ok(frames) => gif_stream(bytes@, max_width, max_height, max_alloc) == Some(
                (frames_ahead(frames), breaks_off(frames)),
            ),
            Err(_) => gif_stream(bytes@, max_width, max_height, max_alloc) is None,
        },
{
    let mut decoder = image::codecs::gif::GifDecoder::new(std::io::Cursor::new(bytes))?;
    let mut limits = image::Limits::default();
    limits.max_image_width = Some(max_width);
    limits.max_image_height = Some(max_height);
    limits.max_alloc = Some(max_alloc);
    image::ImageDecoder::set_limits(&mut decoder, limits)?;
    Ok(image::AnimationDecoder::into_frames(decoder))
}

/// Reads one frame with `image::Frames::next`.
///
/// Trusted: the frames ahead come one by one, four bytes for each pixel, then the error or
/// the end. What comes after an error is left open.
#[verifier::external_body]
fn read_frame(frames: &mut image::Frames<'_>) -> (r: Option<Result<DecodedFrame, image::ImageError>>)
    ensures
        frames_ahead(*old(frames)).len() > 0 ==> {
            &&& r matches Some(Ok(frame))
            &&& frame@ == frames_ahead(*old(frames))[0]
            &&& frame@.rgba.len() == 4 * (frame.width * frame.height)
            &&& frames_ahead(*final(frames)) == frames_ahead(*old(frames)).drop_first()
            &&& breaks_off(*final(frames)) == breaks_off(*old(frames))
        },
        frames_ahead(*old(frames)).len() == 0 ==> if breaks_off(*old(frames)) {
            r matches Some(Err(_))
        } else {
            r is None
        },
{
    match frames.next() {
        None => None,
        Some(Err(error)) => Some(Err(error)),
        Some(Ok(frame)) => {
            let (numerator, denominator) = frame.delay().numer_denom_ms();
            let buffer = frame.into_buffer();
            let (width, height) = buffer.dimensions();
            Some(Ok(DecodedFrame { width, height, numerator, denominator, rgba: buffer.into_raw() }))
        },
    }
}

/// The limit on a side of a GIF: the configured one where it is larger than the usual one.
pub open spec fn gif_side_limit(limit: Option<u32>) -> u32 {
    match limit {
        Some(limit) if limit > KITTY_GIF_MAX_DIMENSION => limit,
        _ => KITTY_GIF_MAX_DIMENSION,
    }
}

/// The frames of a GIF file within the limits of `config`: see [`gif_stream`].
pub open spec fn limited_stream(bytes: Seq<u8>, config: Config) -> Option<(Seq<FrameData>, bool)> {
    gif_stream(
        bytes,
        gif_side_limit(config.max_pixels_w),
        gif_side_limit(config.max_pixels_h),
        KITTY_GIF_MAX_DECODER_ALLOC_BYTES,
    )
}

/// How long a frame is shown: its delay in whole milliseconds, halves up, or the default
/// where that is no positive 32-bit number.
pub open spec fn shown_delay_ms(numerator: u32, denominator: u32) -> i32 {
    let rounded = (numerator + denominator / 2) / (denominator as int);
    if denominator != 0 && 0 < rounded <= i32::MAX {
        rounded as i32
    } else {
        DEFAULT_GIF_FRAME_DELAY_MS
    }
}

/// The frame that is shown for a decoded one.
pub open spec fn shown(frame: FrameData) -> ShownFrame {
    ShownFrame {
        width: frame.width,
        height: frame.height,
        delay_ms: shown_delay_ms(frame.numerator, frame.denominator),
        rgba: frame.rgba,
    }
}

/// Why the next frame is not shown, when `index` frames of `total` bytes came before it.
pub open spec fn frame_error(ahead: Seq<FrameData>, breaks: bool, index: int, total: int) -> Option<
    DecodeError,
> {
    if ahead.len() == 0 && !breaks {
        None
    } else if index >= KITTY_GIF_MAX_FRAMES {
        Some(DecodeError::TooManyFrames)
    } else if ahead.len() == 0 {
        Some(DecodeError::Malformed)
    } else if total + ahead[0].rgba.len() > KITTY_GIF_MAX_TOTAL_RGBA_BYTES {
        Some(DecodeError::AnimationTooLarge)
    } else {
        None
    }
}

/// Whether the frames ahead are all shown, when `index` frames of `total` bytes came before;
/// the first frame that is not shown decides otherwise.
pub open spec fn admitted(ahead: Seq<FrameData>, breaks: bool, index: int, total: int) -> Result<
    (),
    DecodeError,
>
    decreases ahead.len(),
{
    match frame_error(ahead, breaks, index, total) {
        Some(error) => Err(error),
        None => if ahead.len() == 0 {
            Ok(())
        } else {
            admitted(ahead.drop_first(), breaks, index + 1, total + ahead[0].rgba.len())
        },
    }
}

/// How many of the frames ahead are shown before one is not, or before the end.
pub open spec fn shown_count(ahead: Seq<FrameData>, breaks: bool, index: int, total: int) -> nat
    decreases ahead.len(),
{
    if frame_error(ahead, breaks, index, total) is Some || ahead.len() == 0 {
        0
    } else {
        1 + shown_count(ahead.drop_first(), breaks, index + 1, total + ahead[0].rgba.len())
    }
}

/// The frames of a GIF file that are shown before one is not, or before the end.
pub open spec fn shown_frames(bytes: Seq<u8>, config: Config) -> Seq<ShownFrame> {
    match limited_stream(bytes, config) {
        None => Seq::empty(),
        Some((frames, breaks)) => frames.take(
            shown_count(frames, breaks, 0, 0) as int,
        ).map_values(|f: FrameData| shown(f)),
    }
}

/// The frames of a GIF file that is shown as an animation, or why it is not.
pub open spec fn animation(bytes: Seq<u8>, config: Config) -> Result<Seq<ShownFrame>, DecodeError> {
    match limited_stream(bytes, config) {
        None => Err(DecodeError::Malformed),
        Some((frames, breaks)) => match admitted(frames, breaks, 0, 0) {
            Ok(_) => Ok(frames.map_values(|f: FrameData| shown(f))),
            Err(error) => Err(error),
        },
    }
}

/// Frames that are all admitted are all shown.
proof fn lemma_admitted_are_shown(ahead: Seq<FrameData>, breaks: bool, index: int, total: int)
    requires
        admitted(ahead, breaks, index, total) is Ok,
    ensures
        shown_count(ahead, breaks, index, total) == ahead.len(),
    decreases ahead.len(),
{
    if ahead.len() > 0 {
        lemma_admitted_are_shown(
            ahead.drop_first(),
            breaks,
            index + 1,
            total + ahead[0].rgba.len(),
        );
    }
}

/// Of an animation that is shown, all frames are.
pub proof fn law_animations_are_shown_whole(bytes: Seq<u8>, config: Config)
    ensures
        animation(bytes, config) matches Ok(frames) ==> shown_frames(bytes, config) == frames,
{
    if let Some((frames, breaks)) = limited_stream(bytes, config) {
        if admitted(frames, breaks, 0, 0) is Ok {
            lemma_admitted_are_shown(frames, breaks, 0, 0);
            assert(frames.take(frames.len() as int) =~= frames);
        }
    }
}

/// How long a frame is shown, in milliseconds.
pub fn frame_delay_ms(numerator: u32, denominator: u32) -> (r: i32)
    ensures
        r == shown_delay_ms(numerator, denominator),
{
    if denominator == 0 {
        return DEFAULT_GIF_FRAME_DELAY_MS;
    }
    let rounded: u64 = (numerator as u64 + (denominator / 2) as u64) / denominator as u64;
    if 0 < rounded && rounded <= i32::MAX as u64 {
        rounded as i32
    } else {
        DEFAULT_GIF_FRAME_DELAY_MS
    }
}

/// The frames of a GIF file that are still to be shown.
pub struct GifFrames<'a> {
    frames: image::Frames<'a>,
    index: usize,
    total_rgba_bytes: u64,
}

impl<'a> GifFrames<'a> {
    /// The frames that are still to be read.
    pub closed spec fn ahead(self) -> Seq<FrameData> {
        frames_ahead(self.frames)
    }

    /// An error comes after the frames ahead.
    pub closed spec fn breaks(self) -> bool {
        breaks_off(self.frames)
    }

    /// The number of frames that were read.
    pub closed spec fn index(self) -> int {
        self.index as int
    }

    /// The bytes of the frames that were read.
    pub closed spec fn total(self) -> int {
        self.total_rgba_bytes as int
    }

    /// No limit was broken so far.
    pub closed spec fn wf(self) -> bool {
        &&& self.index <= KITTY_GIF_MAX_FRAMES
        &&& self.total_rgba_bytes <= KITTY_GIF_MAX_TOTAL_RGBA_BYTES
    }

    /// Opens a GIF file within the limits of `config`.
    pub fn open(decoded: &'a [u8], config: &Config) -> (r: Result<GifFrames<'a>, DecodeError>)
        ensures
            match r {
                Ok(frames) => {
                    &&& limited_stream(decoded@, *config) == Some((frames.ahead(), frames.breaks()))
                    &&& frames.wf()
                    &&& frames.index() == 0
                    &&& frames.total() == 0
                },
                Err(error) => {
                    &&& limited_stream(decoded@, *config) is None
                    &&& error == DecodeError::Malformed
                },
            },
    {
        let max_width: u32 = limited_gif_side(config.max_pixels_w);
        let max_height: u32 = limited_gif_side(config.max_pixels_h);
        match open_gif(decoded, max_width, max_height, KITTY_GIF_MAX_DECODER_ALLOC_BYTES) {
            Ok(frames) => Ok(GifFrames { frames, index: 0, total_rgba_bytes: 0 }),
            Err(_) => Err(DecodeError::Malformed),
        }
    }

    /// The next frame to show, or nothing at the end of the file.
    ///
    /// It is an error where there is one more frame than is shown, where the frame cannot be
    /// read, or where it takes the frames beyond the memory that they may have.
    pub fn next_frame(&mut self) -> (r: Result<Option<GifFrame>, DecodeError>)
        requires
            old(self).wf(),
        ensures
            match r {
                Ok(next) => {
                    let ahead = old(self).ahead();
                    &&& frame_error(
                        ahead,
                        old(self).breaks(),
                        old(self).index(),
                        old(self).total(),
                    ) is None
                    &&& next is Some <==> ahead.len() > 0
                    &&& next matches Some(frame) ==> {
                        &&& frame@ == shown(ahead[0])
                        &&& frame@.rgba.len() == 4 * (frame.width * frame.height)
                        &&& frame@.rgba.len() <= KITTY_GIF_MAX_TOTAL_RGBA_BYTES
                        &&& final(self).wf()
                        &&& final(self).ahead() == ahead.drop_first()
                        &&& final(self).breaks() == old(self).breaks()
                        &&& final(self).index() == old(self).index() + 1
                        &&& final(self).total() == old(self).total() + ahead[0].rgba.len()
                    }
                },
                Err(error) => frame_error(
                    old(self).ahead(),
                    old(self).breaks(),
                    old(self).index(),
                    old(self).total(),
                ) == Some(error),
            },
    {
        let item = match read_frame(&mut self.frames) {
            Some(item) => item,
            None => return Ok(None),
        };
        if self.index >= KITTY_GIF_MAX_FRAMES {
            return Err(DecodeError::TooManyFrames);
        }
        let frame: DecodedFrame = match item {
            Ok(frame) => frame,
            Err(_) => return Err(DecodeError::Malformed),
        };
        let frame_bytes: u64 = frame.rgba.len() as u64;
        let total_rgba_bytes: u64 = match self.total_rgba_bytes.checked_add(frame_bytes) {
            Some(total) => total,
            None => return Err(DecodeError::AnimationTooLarge),
        };
        if total_rgba_bytes > KITTY_GIF_MAX_TOTAL_RGBA_BYTES {
            return Err(DecodeError::AnimationTooLarge);
        }
        self.index = self.index + 1;
        self.total_rgba_bytes = total_rgba_bytes;
        let delay_ms: i32 = frame_delay_ms(frame.numerator, frame.denominator);
        Ok(Some(GifFrame { width: frame.width, height: frame.height, delay_ms, rgba: frame.rgba }))
    }
}

/// The limit on a side of a GIF.
fn limited_gif_side(limit: Option<u32>) -> (r: u32)
    ensures
        r == gif_side_limit(limit),
{
    match limit {
        Some(limit) => if limit > KITTY_GIF_MAX_DIMENSION {
            limit
        } else {
            KITTY_GIF_MAX_DIMENSION
        },
        None => KITTY_GIF_MAX_DIMENSION,
    }
}

/// Reads a whole GIF file and counts the frames that are shown.
pub fn gif_animation_stats(decoded: &[u8], config: &Config) -> (r: Result<
    GifAnimationStats,
    DecodeError,
>)
    ensures
        match animation(decoded@, *config) {
            Ok(frames) => r matches Ok(stats) && stats.frame_count == frames.len(),
            Err(error) => r == Err::<GifAnimationStats, DecodeError>(error),
        },
{
    let mut frames = match GifFrames::open(decoded, config) {
        Ok(frames) => frames,
        Err(error) => return Err(error),
    };
    let ghost all = frames.ahead();
    let ghost breaks = frames.breaks();
    let mut frame_count: usize = 0;
    loop
        invariant
            frames.wf(),
            frames.breaks() == breaks,
            frames.index() == frame_count,
            frame_count <= KITTY_GIF_MAX_FRAMES,
            frame_count + frames.ahead().len() == all.len(),
            limited_stream(decoded@, *config) == Some((all, breaks)),
            admitted(all, breaks, 0, 0) == admitted(
                frames.ahead(),
                breaks,
                frames.index(),
                frames.total(),
            ),
        decreases frames.ahead().len(),
    {
        match frames.next_frame() {
            Ok(Some(_)) => {
                frame_count += 1;
            },
            Ok(None) => return Ok(GifAnimationStats { frame_count }),
            Err(error) => return Err(error),
        }
    }
}

/// The pixels of the first frame of a GIF file, or why there are none.
pub open spec fn first_frame(bytes: Seq<u8>, config: Config) -> Result<Raster, DecodeError> {
    match limited_stream(bytes, config) {
        None => Err(DecodeError::Malformed),
        Some((frames, breaks)) => if frames.len() > 0 {
            Ok(Raster { width: frames[0].width, height: frames[0].height, rgba: frames[0].rgba })
        } else if breaks {
            Err(DecodeError::Malformed)
        } else {
            Err(DecodeError::NoFrames)
        },
    }
}

/// Reads the first frame of a GIF file.
pub fn first_gif_frame(decoded: &[u8], config: &Config) -> (r: Result<Pixmap, DecodeError>)
    ensures
        match first_frame(decoded@, *config) {
            Ok(image) => r matches Ok(pixmap) && pixmap@ == image && image.wf(),
            Err(error) => r == Err::<Pixmap, DecodeError>(error),
        },
{
    let mut frames = match GifFrames::open(decoded, config) {
        Ok(frames) => frames,
        Err(error) => return Err(error),
    };
    match read_frame(&mut frames.frames) {
        None => Err(DecodeError::NoFrames),
        Some(Err(_)) => Err(DecodeError::Malformed),
        Some(Ok(frame)) => {
            Ok(Pixmap { width: frame.width, height: frame.height, rgba: frame.rgba })
        },
    }
}

/// All the bytes of a sequence of frames.
pub open spec fn total_bytes(frames: Seq<FrameData>) -> int
    decreases frames.len(),
{
    if frames.len() == 0 {
        0
    } else {
        frames[0].rgba.len() + total_bytes(frames.drop_first())
    }
}

/// Frames are all shown exactly where no error ends them, there are not too many of them,
/// and together they are not too large.
pub proof fn law_admitted(ahead: Seq<FrameData>, breaks: bool, index: int, total: int)
    requires
        0 <= index <= KITTY_GIF_MAX_FRAMES,
        0 <= total <= KITTY_GIF_MAX_TOTAL_RGBA_BYTES,
    ensures
        admitted(ahead, breaks, index, total) is Ok <==> {
            &&& !breaks
            &&& index + ahead.len() <= KITTY_GIF_MAX_FRAMES
            &&& total + total_bytes(ahead) <= KITTY_GIF_MAX_TOTAL_RGBA_BYTES
        },
        total_bytes(ahead) >= 0,
    decreases ahead.len(),
{
    if ahead.len() > 0 {
        if index < KITTY_GIF_MAX_FRAMES && total + ahead[0].rgba.len()
            <= KITTY_GIF_MAX_TOTAL_RGBA_BYTES {
            law_admitted(ahead.drop_first(), breaks, index + 1, total + ahead[0].rgba.len());
        } else {
            lemma_total_bytes(ahead.drop_first());
        }
    }
}

proof fn lemma_total_bytes(frames: Seq<FrameData>)
    ensures
        total_bytes(frames) >= 0,
    decreases frames.len(),
{
    if frames.len() > 0 {
        lemma_total_bytes(frames.drop_first());
    }
}

/// A frame is shown for a positive time.
pub proof fn law_delay_is_positive(numerator: u32, denominator: u32)
    ensures
        shown_delay_ms(numerator, denominator) > 0,
{
}

/// A GIF file is decoded within sides of 8192 pixels, or of those of the settings where they are
/// larger, and within 64 MiB.
pub proof fn law_gifs_are_decoded_within_limits(bytes: Seq<u8>, config: Config)
    ensures
        exists|width: u32, height: u32|
            {
                &&& limited_stream(bytes, config) == #[trigger] gif_stream(
                    bytes,
                    width,
                    height,
                    0x400_0000,
                )
                &&& width >= 8192
                &&& height >= 8192
                &&& width == 8192 || config.max_pixels_w == Some(width)
                &&& height == 8192 || config.max_pixels_h == Some(height)
                &&& config.max_pixels_w matches Some(limit) ==> width >= limit
                &&& config.max_pixels_h matches Some(limit) ==> height >= limit
            },
{
    let (width, height) = (
        gif_side_limit(config.max_pixels_w),
        gif_side_limit(config.max_pixels_h),
    );
    assert(limited_stream(bytes, config) == gif_stream(bytes, width, height, 0x400_0000));
}

/// A frame is shown as it was decoded, for the nearest number of milliseconds to its time, of two
/// equally near ones the larger; for 40 milliseconds where that is none, or none that fits a
/// positive 32-bit number, or where the time is not known.
pub proof fn law_frames_are_shown_as_decoded(frame: FrameData)
    ensures
        shown(frame).width == frame.width,
        shown(frame).height == frame.height,
        shown(frame).rgba == frame.rgba,
        ({
            let (n, d) = (frame.numerator as int, frame.denominator as int);
            let delay = shown(frame).delay_ms as int;
            if 0 < d <= 2 * n < 0xffff_ffff * d {
                -d < 2 * (d * delay - n) <= d
            } else {
                delay == 40
            }
        }),
{
    let (n, d) = (frame.numerator as int, frame.denominator as int);
    if d > 0 {
        let q = (n + d / 2) / d;
        vstd::arithmetic::div_mod::lemma_fundamental_div_mod(n + d / 2, d);
        vstd::arithmetic::div_mod::lemma_mod_bound(n + d / 2, d);
        assert(q >= 1 <==> 2 * n >= d) by {
            if q <= 0 {
                assert(d * q <= 0) by (nonlinear_arith)
                    requires
                        q <= 0,
                        d > 0,
                ;
            } else {
                assert(d * q >= d) by (nonlinear_arith)
                    requires
                        q >= 1,
                        d > 0,
                ;
            }
        }
        assert(q <= 0x7fff_ffff <==> 2 * n < 0xffff_ffff * d) by {
            if q <= 0x7fff_ffff {
                assert(d * q <= d * 0x7fff_ffff) by (nonlinear_arith)
                    requires
                        q <= 0x7fff_ffff,
                        d > 0,
                ;
            } else {
                assert(d * q >= d * 0x8000_0000) by (nonlinear_arith)
                    requires
                        q >= 0x8000_0000,
                        d > 0,
                ;
            }
        }
    }
}

/// A GIF file is shown as an animation exactly where its frames come to an end without an error,
/// they are at most 256, and together they take at most 128 MiB. All of them are then shown.
pub proof fn law_animations_are_whole(bytes: Seq<u8>, config: Config)
    ensures
        animation(bytes, config) is Ok <==> {
            &&& limited_stream(bytes, config) matches Some((frames, breaks))
            &&& !breaks
            &&& frames.len() <= 256
            &&& total_bytes(frames) <= 0x800_0000
        },
        animation(bytes, config) matches Ok(shown_frames) ==> {
            &&& limited_stream(bytes, config) matches Some((frames, breaks))
            &&& shown_frames.len() == frames.len()
            &&& forall|k: int|
                0 <= k < frames.len() ==> #[trigger] shown_frames[k] == shown(frames[k])
        },
{
    if let Some((frames, breaks)) = limited_stream(bytes, config) {
        law_admitted(frames, breaks, 0, 0);
    }
}

/// Why frames are not all shown: they are too large where some of the first 256 take them beyond
/// the limit; else they are too many where something comes after 256 of them, be it a frame or
/// an error; else it is the error that ends them.
pub proof fn law_refused_animations(ahead: Seq<FrameData>, breaks: bool, index: int, total: int)
    requires
        0 <= index <= 256,
        0 <= total <= 0x800_0000,
    ensures
        admitted(ahead, breaks, index, total) matches Err(error) ==> {
            let too_large = exists|k: int|
                0 <= k < ahead.len() && index + k < 256 && total + #[trigger] total_bytes(
                    ahead.take(k + 1),
                ) > 0x800_0000;
            &&& error == DecodeError::AnimationTooLarge <==> too_large
            &&& error == DecodeError::TooManyFrames <==> !too_large && index + ahead.len() + (
            if breaks {
                1int
            } else {
                0
            }) > 256
            &&& error == DecodeError::Malformed <==> !too_large && breaks && index + ahead.len()
                < 256
        },
    decreases ahead.len(),
{
    if ahead.len() > 0 {
        let first = ahead[0].rgba.len();
        let rest = ahead.drop_first();
        assert forall|k: int| 0 <= k < ahead.len() implies #[trigger] total_bytes(
            ahead.take(k + 1),
        ) == first + total_bytes(rest.take(k)) by {
            assert(ahead.take(k + 1).drop_first() =~= rest.take(k));
        }
        lemma_total_bytes(rest.take(0));
        assert(rest.take(0) =~= Seq::empty());
        assert(total_bytes(ahead.take(0int + 1)) == first);
        if index < 256 && total + first <= 0x800_0000 {
            law_refused_animations(rest, breaks, index + 1, total + first);
            let here = exists|k: int|
                0 <= k < ahead.len() && index + k < 256 && total + #[trigger] total_bytes(
                    ahead.take(k + 1),
                ) > 0x800_0000;
            let there = exists|k: int|
                0 <= k < rest.len() && index + 1 + k < 256 && total + first
                    + #[trigger] total_bytes(rest.take(k + 1)) > 0x800_0000;
            if here {
                let k = choose|k: int|
                    0 <= k < ahead.len() && index + k < 256 && total + #[trigger] total_bytes(
                        ahead.take(k + 1),
                    ) > 0x800_0000;
                assert(k > 0);
                assert(total_bytes(rest.take(k - 1 + 1)) == total_bytes(ahead.take(k + 1)) - first);
            }
            if there {
                let k = choose|k: int|
                    0 <= k < rest.len() && index + 1 + k < 256 && total + first
                        + #[trigger] total_bytes(rest.take(k + 1)) > 0x800_0000;
                assert(total_bytes(ahead.take(k + 1 + 1)) == first + total_bytes(rest.take(k + 1)));
            }
        }
    }
}

/// The first frame of a GIF file is shown as it was decoded, however many follow it. Without one,
/// the file is empty or broken.
pub proof fn law_first_frames_are_shown(bytes: Seq<u8>, config: Config)
    ensures
        match limited_stream(bytes, config) {
            Some((frames, breaks)) => if frames.len() > 0 {
                &&& first_frame(bytes, config) matches Ok(image)
                &&& image.width == frames[0].width
                &&& image.height == frames[0].height
                &&& image.rgba == frames[0].rgba
            } else {
                first_frame(bytes, config) == Err::<Raster, DecodeError>(
                    if breaks {
                        DecodeError::Malformed
                    } else {
                        DecodeError::NoFrames
                    },
                )
            },
            None => first_frame(bytes, config) == Err::<Raster, DecodeError>(
                DecodeError::Malformed,
            ),
        },
{
}

/// The frames that are shown before one is not are as many as fit: the next one is missing, or it
/// would be one too many, or it would take them beyond the limit on their size.
pub proof fn law_fitting_frames_are_shown(
    ahead: Seq<FrameData>,
    breaks: bool,
    index: int,
    total: int,
)
    requires
        0 <= index <= 256,
        0 <= total <= 0x800_0000,
    ensures
        ({
            let n = shown_count(ahead, breaks, index, total) as int;
            &&& n <= ahead.len()
            &&& index + n <= 256
            &&& total + total_bytes(ahead.take(n)) <= 0x800_0000
            &&& n == ahead.len() || index + n == 256 || total + total_bytes(ahead.take(n + 1))
                > 0x800_0000
        }),
    decreases ahead.len(),
{
    let n = shown_count(ahead, breaks, index, total) as int;
    assert(ahead.take(0) =~= Seq::empty());
    if ahead.len() > 0 {
        let first = ahead[0].rgba.len();
        let rest = ahead.drop_first();
        assert(rest.take(0) =~= Seq::empty());
        assert(ahead.take(1).drop_first() =~= rest.take(0));
        if index < 256 && total + first <= 0x800_0000 {
            law_fitting_frames_are_shown(rest, breaks, index + 1, total + first);
            assert(ahead.take(n).drop_first() =~= rest.take(n - 1));
            if n < ahead.len() {
                assert(ahead.take(n + 1).drop_first() =~= rest.take(n));
            }
        }
    }
}

/// The frames that are shown before one is not are the first ones of the file, in order.
pub proof fn law_shown_frames_come_first(bytes: Seq<u8>, config: Config)
    ensures
        match limited_stream(bytes, config) {
            Some((frames, breaks)) => {
                &&& shown_frames(bytes, config).len() == shown_count(frames, breaks, 0, 0)
                &&& forall|k: int|
                    0 <= k < shown_frames(bytes, config).len() ==> #[trigger] shown_frames(
                        bytes,
                        config,
                    )[k] == shown(frames[k])
            },
            None => shown_frames(bytes, config).len() == 0,
        },
{
    if let Some((frames, breaks)) = limited_stream(bytes, config) {
        law_fitting_frames_are_shown(frames, breaks, 0, 0);
    }
}

} // verus!
