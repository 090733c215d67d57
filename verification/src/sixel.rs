//! Images as sixel graphics.
//!
//! A sixel is a column of six pixels of one color. The image goes out in bands of six rows;
//! in a band, each color has a strip of sixels as wide as the image, with runs of equal
//! sixels shortened.

use vstd::prelude::*;

use crate::bytes;
use crate::bytes::{push_decimal, push_text};
use crate::config::Config;
use crate::gif;
use crate::raster;
use crate::raster::{DecodeError, Pixmap, Raster};
use crate::scale;
use crate::scale::constrained_dimensions;
use crate::scan;

verus! {

/// A pixel with a smaller alpha value is not drawn.
pub const SIXEL_TRANSPARENT_ALPHA_THRESHOLD: u8 = 128;

pub const DOLLAR: u8 = 0x24;

pub const HYPHEN: u8 = 0x2d;

pub const EXCLAMATION: u8 = 0x21;

/// The palette entry of a color: three bits of red, three of green and two of blue.
pub open spec fn palette_entry(red: u8, green: u8, blue: u8) -> u8 {
    ((red / 32) * 32 + (green / 32) * 4 + blue / 64) as u8
}

/// The color of a palette entry.
pub open spec fn entry_color(index: u8) -> (u8, u8, u8) {
    (
        ((index / 32) * 255 / 7) as u8,
        ((index / 4 % 8) * 255 / 7) as u8,
        ((index % 4) * 255 / 3) as u8,
    )
}

/// A color value on the scale from 0 to 100, rounded to the nearest.
pub open spec fn percentage(value: u8) -> u8 {
    ((value * 100 + 127) / 255) as u8
}

/// The palette entry of a pixel, or nothing where the pixel is not drawn.
pub open spec fn color_at(image: Raster, x: int, y: int) -> Option<u8> {
    let at = image.offset(x, y);
    if image.rgba[at + 3] >= SIXEL_TRANSPARENT_ALPHA_THRESHOLD {
        Some(palette_entry(image.rgba[at], image.rgba[at + 1], image.rgba[at + 2]))
    } else {
        None
    }
}

/// The pixel in column `x` of row `y` exists and is drawn in `color`.
pub open spec fn has_color(image: Raster, x: int, y: int, color: int) -> bool {
    0 <= x < image.width && 0 <= y < image.height && color_at(image, x, y) == Some(color as u8)
}

/// Some pixel is drawn in `color`.
pub open spec fn uses_color(image: Raster, color: int) -> bool {
    exists|x: int, y: int| has_color(image, x, y, color)
}

/// The first `rows` pixels of a column from row `top` down, one bit for each that is drawn
/// in `color`, the topmost in the lowest bit.
pub open spec fn column_bits(image: Raster, x: int, top: int, color: int, rows: nat) -> int
    decreases rows,
{
    if rows == 0 {
        0
    } else {
        column_bits(image, x, top, color, (rows - 1) as nat) + if has_color(
            image,
            x,
            top + rows - 1,
            color,
        ) {
            bit((rows - 1) as nat)
        } else {
            0
        }
    }
}

/// The value of a bit.
pub open spec fn bit(n: nat) -> int
    decreases n,
{
    if n == 0 {
        1
    } else {
        2 * bit((n - 1) as nat)
    }
}

/// The sixels of one color in the band from row `top` on.
pub open spec fn strip(image: Raster, top: int, color: int) -> Seq<u8> {
    Seq::new(image.width as nat, |x: int| (63 + column_bits(image, x, top, color, 6)) as u8)
}

/// How many equal bytes `s` ends with.
pub open spec fn last_run(s: Seq<u8>) -> nat
    decreases s.len(),
{
    if s.len() <= 1 {
        s.len()
    } else if s[s.len() - 2] == s.last() {
        last_run(s.drop_last()) + 1
    } else {
        1
    }
}

/// A run of `n` equal sixels: the sixel itself up to three times, else its number of
/// repetitions and the sixel once.
pub open spec fn run_text(n: nat, byte: u8) -> Seq<u8> {
    if n > 3 {
        seq![EXCLAMATION] + bytes::decimal(n) + seq![byte]
    } else {
        Seq::new(n, |i: int| byte)
    }
}

/// Sixels with each run of equal ones written as one run.
pub open spec fn coded(s: Seq<u8>) -> Seq<u8>
    decreases s.len(),
    via coded_decreases
{
    if s.len() == 0 {
        Seq::empty()
    } else {
        coded(s.take(s.len() - last_run(s))) + run_text(last_run(s), s.last())
    }
}

#[via_fn]
proof fn coded_decreases(s: Seq<u8>) {
    lemma_last_run(s);
}

/// A run reaches back to the start or to a different byte.
pub proof fn lemma_last_run(s: Seq<u8>)
    ensures
        s.len() > 0 ==> 1 <= last_run(s) <= s.len(),
        forall|i: int| s.len() - last_run(s) <= i < s.len() ==> s[i] == s.last(),
        0 < last_run(s) < s.len() ==> s[s.len() - last_run(s) - 1] != s.last(),
    decreases s.len(),
{
    if s.len() > 1 && s[s.len() - 2] == s.last() {
        let t = s.drop_last();
        lemma_last_run(t);
        assert forall|i: int| s.len() - last_run(s) <= i < s.len() implies s[i] == s.last() by {
            if i < s.len() - 1 {
                assert(t[i] == t.last());
            }
        }
    }
}

/// The definitions of the colors below `n` that the image uses.
pub open spec fn palette_text(image: Raster, n: nat) -> Seq<u8>
    decreases n,
{
    if n == 0 {
        Seq::empty()
    } else {
        let before = palette_text(image, (n - 1) as nat);
        let (red, green, blue) = entry_color((n - 1) as u8);
        if uses_color(image, n - 1) {
            before + bytes::text("#") + bytes::decimal((n - 1) as nat) + bytes::text(";2;")
                + bytes::decimal(percentage(red) as nat) + bytes::text(";") + bytes::decimal(
                percentage(green) as nat,
            ) + bytes::text(";") + bytes::decimal(percentage(blue) as nat)
        } else {
            before
        }
    }
}

/// The strips of the colors below `n` that the image uses, each with a `$` after it.
pub open spec fn strips_text(image: Raster, top: int, n: nat) -> Seq<u8>
    decreases n,
{
    if n == 0 {
        Seq::empty()
    } else {
        let before = strips_text(image, top, (n - 1) as nat);
        if uses_color(image, n - 1) {
            before + bytes::text("#") + bytes::decimal((n - 1) as nat) + coded(
                strip(image, top, n - 1),
            ) + seq![DOLLAR]
        } else {
            before
        }
    }
}

/// A band: the strips of all colors, with a `$` between any two.
pub open spec fn band_text(image: Raster, top: int) -> Seq<u8> {
    let strips = strips_text(image, top, 256);
    if strips.len() == 0 {
        strips
    } else {
        strips.drop_last()
    }
}

/// The first `n` bands, with a `-` between any two.
pub open spec fn bands_text(image: Raster, n: nat) -> Seq<u8>
    decreases n,
{
    if n == 0 {
        Seq::empty()
    } else if n == 1 {
        band_text(image, 0)
    } else {
        bands_text(image, (n - 1) as nat) + seq![HYPHEN] + band_text(image, 6 * (n - 1))
    }
}

/// The number of bands of an image.
pub open spec fn band_count(height: u32) -> nat {
    ((height + 5) / 6) as nat
}

/// A whole image as sixel graphics; nothing for an image without pixels.
pub open spec fn sixel_text(image: Raster) -> Seq<u8> {
    if image.width == 0 || image.height == 0 {
        Seq::empty()
    } else {
        bytes::text("\x1bPq\"1;1;") + bytes::decimal(image.width as nat) + bytes::text(";")
            + bytes::decimal(image.height as nat) + palette_text(image, 256) + bands_text(
            image,
            band_count(image.height),
        ) + bytes::text("\x1b\\")
    }
}

/// The palette entry of a color.
pub fn palette_index(red: u8, green: u8, blue: u8) -> (r: u8)
    ensures
        r == palette_entry(red, green, blue),
{
    (red / 32) * 32 + (green / 32) * 4 + blue / 64
}

/// The color of a palette entry.
pub fn palette_color(index: u8) -> (r: (u8, u8, u8))
    ensures
        r == entry_color(index),
{
    let red: u16 = (index / 32) as u16;
    let green: u16 = (index / 4 % 8) as u16;
    let blue: u16 = (index % 4) as u16;
    ((red * 255 / 7) as u8, (green * 255 / 7) as u8, (blue * 255 / 3) as u8)
}

/// A color value on the scale from 0 to 100.
pub fn percent(value: u8) -> (r: u8)
    ensures
        r == percentage(value),
{
    ((value as u16 * 100 + 127) / 255) as u8
}

/// The palette entry of a pixel, or nothing where the pixel is not drawn.
fn pixel_color(image: &Pixmap, x: u32, y: u32) -> (r: Option<u8>)
    requires
        image@.wf(),
        x < image.width,
        y < image.height,
    ensures
        r == color_at(image@, x as int, y as int),
{
    proof {
        let (w, h) = (image.width as int, image.height as int);
        assert(y * w + x < w * h) by (nonlinear_arith)
            requires
                0 <= x < w,
                0 <= y < h,
        ;
        assert(0 <= y * w) by (nonlinear_arith)
            requires
                0 <= y,
                0 <= w,
        ;
        assert(4 * (w * h) == image.rgba.len());
    }
    let at: usize = 4 * (y as usize * image.width as usize + x as usize);
    if image.rgba[at + 3] >= SIXEL_TRANSPARENT_ALPHA_THRESHOLD {
        Some(palette_index(image.rgba[at], image.rgba[at + 1], image.rgba[at + 2]))
    } else {
        None
    }
}

/// Six pixels of a column from row `band_y` down, one bit for each that is drawn in `color`.
pub fn sixel_bits_for_color(image: &Pixmap, x: u32, band_y: u32, color: u8) -> (r: u8)
    requires
        image@.wf(),
        x < image.width,
    ensures
        r == column_bits(image@, x as int, band_y as int, color as int, 6),
        r < 64,
{
    let mut bits: u8 = 0;
    let mut value: u8 = 1;
    let mut offset: u32 = 0;
    while offset < 6
        invariant
            image@.wf(),
            x < image.width,
            offset <= 6,
            value == bit(offset as nat),
            value == 1 || value == 2 || value == 4 || value == 8 || value == 16 || value == 32
                || value == 64 && offset == 6,
            bits < value,
            bits == column_bits(image@, x as int, band_y as int, color as int, offset as nat),
        decreases 6 - offset,
    {
        if band_y < image.height && offset < image.height - band_y {
            match pixel_color(image, x, band_y + offset) {
                Some(found) => {
                    if found == color {
                        bits = bits + value;
                    }
                },
                None => {},
            }
        }
        proof {
            reveal_with_fuel(bit, 7);
        }
        value = 2 * value;
        offset += 1;
    }
    bits
}

/// Appends a run of `run` equal sixels.
pub fn write_sixel_run(out: &mut Vec<u8>, run: usize, byte: u8)
    ensures
        final(out)@ == old(out)@ + run_text(run as nat, byte),
{
    if run > 3 {
        out.push(EXCLAMATION);
        push_decimal(out, run as u64);
        out.push(byte);
        assert(out@ =~= old(out)@ + run_text(run as nat, byte));
        return;
    }
    let mut i: usize = 0;
    while i < run
        invariant
            i <= run <= 3,
            out@ == old(out)@ + Seq::new(i as nat, |j: int| byte),
        decreases run - i,
    {
        out.push(byte);
        i += 1;
        assert(out@ =~= old(out)@ + Seq::new(i as nat, |j: int| byte));
    }
}

/// For each palette entry, whether some pixel is drawn in it.
fn used_colors(image: &Pixmap) -> (r: Vec<bool>)
    requires
        image@.wf(),
    ensures
        r@.len() == 256,
        forall|c: int| 0 <= c < 256 ==> #[trigger] r@[c] == uses_color(image@, c),
{
    let mut used: Vec<bool> = vec![false; 256];
    let mut y: u32 = 0;
    while y < image.height
        invariant
            image@.wf(),
            y <= image.height,
            used@.len() == 256,
            forall|c: int|
                0 <= c < 256 ==> #[trigger] used@[c] == exists|px: int, py: int|
                    py < y && has_color(image@, px, py, c),
        decreases image.height - y,
    {
        let mut x: u32 = 0;
        while x < image.width
            invariant
                image@.wf(),
                x <= image.width,
                y < image.height,
                used@.len() == 256,
                forall|c: int|
                    0 <= c < 256 ==> #[trigger] used@[c] == exists|px: int, py: int|
                        (py < y || py == y && px < x) && has_color(image@, px, py, c),
            decreases image.width - x,
        {
            let ghost before = used@;
            if let Some(color) = pixel_color(image, x, y) {
                used[color as usize] = true;
                assert(has_color(image@, x as int, y as int, color as int));
            }
            assert forall|c: int| 0 <= c < 256 implies #[trigger] used@[c] == exists|
                px: int,
                py: int,
            | (py < y || py == y && px < x + 1) && has_color(image@, px, py, c) by {
                assert(before[c] == exists|px: int, py: int|
                    (py < y || py == y && px < x) && has_color(image@, px, py, c));
                if before[c] {
                    let (px, py) = choose|px: int, py: int|
                        (py < y || py == y && px < x) && has_color(image@, px, py, c);
                    assert(has_color(image@, px, py, c));
                }
            }
            x += 1;
        }
        assert forall|c: int| 0 <= c < 256 implies #[trigger] used@[c] == exists|px: int, py: int|
            py < y + 1 && has_color(image@, px, py, c) by {
            assert(used@[c] == exists|px: int, py: int|
                (py < y || py == y && px < x) && has_color(image@, px, py, c));
        }
        y += 1;
    }
    assert forall|c: int| 0 <= c < 256 implies #[trigger] used@[c] == uses_color(image@, c) by {
        assert(used@[c] == exists|px: int, py: int| py < y && has_color(image@, px, py, c));
        if uses_color(image@, c) {
            let (px, py) = choose|px: int, py: int| has_color(image@, px, py, c);
            assert(py < y && has_color(image@, px, py, c));
        }
    }
    used
}

/// Appends the definitions of the used colors.
fn write_palette(out: &mut Vec<u8>, image: &Pixmap, used: &Vec<bool>)
    requires
        used@.len() == 256,
        forall|c: int| 0 <= c < 256 ==> #[trigger] used@[c] == uses_color(image@, c),
    ensures
        final(out)@ == old(out)@ + palette_text(image@, 256),
{
    let mut index: usize = 0;
    assert(out@ =~= old(out)@ + palette_text(image@, 0));
    while index < 256
        invariant
            index <= 256,
            used@.len() == 256,
            forall|c: int| 0 <= c < 256 ==> #[trigger] used@[c] == uses_color(image@, c),
            out@ == old(out)@ + palette_text(image@, index as nat),
        decreases 256 - index,
    {
        if used[index] {
            let (red, green, blue) = palette_color(index as u8);
            push_text(out, "#");
            push_decimal(out, index as u64);
            push_text(out, ";2;");
            push_decimal(out, percent(red) as u64);
            push_text(out, ";");
            push_decimal(out, percent(green) as u64);
            push_text(out, ";");
            push_decimal(out, percent(blue) as u64);
        }
        assert(out@ =~= old(out)@ + palette_text(image@, (index + 1) as nat));
        index += 1;
    }
}

/// One more sixel makes the last run longer or starts a new one.
proof fn lemma_next_run(sixels: Seq<u8>, x: int)
    requires
        0 <= x < sixels.len(),
    ensures
        last_run(sixels.take(x + 1)) == if x > 0 && sixels[x - 1] == sixels[x] {
            last_run(sixels.take(x)) + 1
        } else {
            1
        },
{
    assert(sixels.take(x + 1).drop_last() =~= sixels.take(x));
}

/// The last run stands at the end.
proof fn lemma_coded_run(sixels: Seq<u8>, x: int)
    requires
        0 <= x <= sixels.len(),
    ensures
        ({
            let run = last_run(sixels.take(x));
            let last = if x > 0 {
                sixels[x - 1]
            } else {
                63
            };
            coded(sixels.take(x)) == coded(sixels.take(x - run)) + run_text(run, last)
        }),
{
    let run = last_run(sixels.take(x));
    lemma_last_run(sixels.take(x));
    assert(sixels.take(x).take(x - run) =~= sixels.take(x - run));
    if x == 0 {
        assert(run_text(0, 63) =~= Seq::empty());
        assert(coded(sixels.take(0)) =~= Seq::empty());
    }
}

/// Appends the sixels of one color in one band.
fn write_strip(out: &mut Vec<u8>, image: &Pixmap, band_y: u32, color: u8)
    requires
        image@.wf(),
    ensures
        final(out)@ == old(out)@ + coded(strip(image@, band_y as int, color as int)),
{
    let ghost sixels = strip(image@, band_y as int, color as int);
    let mut last: u8 = 63;
    let mut run: usize = 0;
    let mut x: u32 = 0;
    assert(sixels.take(0) =~= Seq::empty());
    assert(out@ =~= old(out)@ + coded(sixels.take(0)));
    while x < image.width
        invariant
            image@.wf(),
            sixels == strip(image@, band_y as int, color as int),
            sixels.len() == image.width,
            x <= image.width,
            run == last_run(sixels.take(x as int)),
            run <= x,
            x > 0 ==> run > 0 && last == sixels[x - 1],
            x == 0 ==> last == 63,
            out@ == old(out)@ + coded(sixels.take(x - run)),
        decreases image.width - x,
    {
        let byte: u8 = 63 + sixel_bits_for_color(image, x, band_y, color);
        proof {
            lemma_next_run(sixels, x as int);
        }
        if run == 0 {
            last = byte;
            run = 1;
        } else if byte == last {
            run += 1;
        } else {
            write_sixel_run(out, run, last);
            proof {
                lemma_coded_run(sixels, x as int);
                assert(out@ =~= old(out)@ + coded(sixels.take(x as int)));
            }
            last = byte;
            run = 1;
        }
        x += 1;
    }
    write_sixel_run(out, run, last);
    proof {
        lemma_coded_run(sixels, x as int);
        assert(sixels.take(x as int) =~= sixels);
        assert(out@ =~= old(out)@ + coded(sixels));
    }
}

/// Appends one band.
fn write_band(out: &mut Vec<u8>, image: &Pixmap, band_y: u32, used: &Vec<bool>)
    requires
        image@.wf(),
        used@.len() == 256,
        forall|c: int| 0 <= c < 256 ==> #[trigger] used@[c] == uses_color(image@, c),
        old(out)@.len() > 0,
        old(out)@.last() != DOLLAR,
    ensures
        final(out)@ == old(out)@ + band_text(image@, band_y as int),
{
    let mut color: usize = 0;
    assert(out@ =~= old(out)@ + strips_text(image@, band_y as int, 0));
    while color < 256
        invariant
            image@.wf(),
            color <= 256,
            used@.len() == 256,
            forall|c: int| 0 <= c < 256 ==> #[trigger] used@[c] == uses_color(image@, c),
            out@ == old(out)@ + strips_text(image@, band_y as int, color as nat),
            out@.len() > old(out)@.len() ==> out@.last() == DOLLAR,
        decreases 256 - color,
    {
        if used[color] {
            push_text(out, "#");
            push_decimal(out, color as u64);
            write_strip(out, image, band_y, color as u8);
            out.push(DOLLAR);
        }
        assert(out@ =~= old(out)@ + strips_text(image@, band_y as int, (color + 1) as nat));
        color += 1;
    }
    if out[out.len() - 1] == DOLLAR {
        out.pop();
    }
    assert(out@ =~= old(out)@ + band_text(image@, band_y as int));
}

proof fn lemma_palette_last(image: Raster, n: nat)
    ensures
        palette_text(image, n).len() > 0 ==> palette_text(image, n).last() != DOLLAR,
    decreases n,
{
    if n > 0 {
        lemma_palette_last(image, (n - 1) as nat);
        let (red, green, blue) = entry_color((n - 1) as u8);
        bytes::lemma_decimal_last(percentage(blue) as nat);
    }
}

/// Appends an image as sixel graphics.
pub fn sixel_pixels(out: &mut Vec<u8>, image: &Pixmap)
    requires
        image@.wf(),
    ensures
        final(out)@ == old(out)@ + sixel_text(image@),
{
    if image.width == 0 || image.height == 0 {
        assert(out@ =~= old(out)@ + sixel_text(image@));
        return;
    }
    let used: Vec<bool> = used_colors(image);
    push_text(out, "\x1bPq\"1;1;");
    push_decimal(out, image.width as u64);
    push_text(out, ";");
    push_decimal(out, image.height as u64);
    write_palette(out, image, &used);
    proof {
        bytes::lemma_decimal_last(image.height as nat);
        lemma_palette_last(image@, 256);
    }
    let ghost head = out@;
    write_band(out, image, 0, &used);
    let mut band_y: u32 = 0;
    let ghost mut bands: nat = 1;
    while image.height - band_y > 6
        invariant
            image@.wf(),
            used@.len() == 256,
            forall|c: int| 0 <= c < 256 ==> #[trigger] used@[c] == uses_color(image@, c),
            bands >= 1,
            band_y == 6 * (bands - 1),
            band_y < image.height,
            out@ == head + bands_text(image@, bands),
        decreases image.height - band_y,
    {
        band_y += 6;
        out.push(HYPHEN);
        write_band(out, image, band_y, &used);
        proof {
            bands = bands + 1;
        }
        assert(out@ =~= head + bands_text(image@, bands));
    }
    assert(bands == band_count(image.height));
    push_text(out, "\x1b\\");
    assert(out@ =~= old(out)@ + sixel_text(image@));
}

/// The pixels of a PNG file or of the first frame of a GIF file, or why there are none.
pub open spec fn source_image(decoded: Seq<u8>, config: Config) -> Result<Raster, DecodeError> {
    if scan::is_png(decoded) {
        match raster::png_raster(decoded) {
            Some(image) => Ok(image),
            None => Err(DecodeError::Malformed),
        }
    } else if scan::is_gif(decoded) {
        gif::first_frame(decoded, config)
    } else {
        Err(DecodeError::Unsupported)
    }
}

/// An image keeps its size, or is shown at a size that images are scaled to.
pub open spec fn can_be_shown(source: Raster, config: Config) -> bool {
    let (width, height) = scale::constrained(source.width, source.height, config);
    ||| width == source.width && height == source.height
    ||| width <= raster::MAX_SCALED_SIDE && height <= raster::MAX_SCALED_SIDE
}

/// The pixels of an image file that can be shown, or why it cannot.
pub open spec fn shown_source(decoded: Seq<u8>, config: Config) -> Result<Raster, DecodeError> {
    match source_image(decoded, config) {
        Ok(source) => if can_be_shown(source, config) {
            Ok(source)
        } else {
            Err(DecodeError::ScaledTooLarge)
        },
        Err(error) => Err(error),
    }
}

/// `image` is what is shown of `source`: the same pixels where it is within the limits, else
/// an image that the filter makes of it, of the same shape and of the size at which it is to
/// be shown.
pub open spec fn is_shown_as(source: Raster, config: Config, image: Raster) -> bool {
    let (width, height) = scale::constrained(source.width, source.height, config);
    if width == source.width && height == source.height {
        image == source
    } else {
        &&& raster::can_resize_to(source, width as u32, height as u32, image)
        &&& image.width == source.width && image.height == source.height ==> image == source
        &&& (image.width as int, image.height as int) == scale::fitted(
            source.width as int,
            source.height as int,
            width,
            height,
        )
        &&& source.rgba.len() == 0 ==> forall|i: int|
            0 <= i < image.rgba.len() ==> image.rgba[i] == 0
    }
}

/// `sixels` is what is written for the image file `decoded`: nothing where it cannot be
/// shown, else the sixel graphics of an image that it is shown as.
pub open spec fn is_sixel_of(decoded: Seq<u8>, config: Config, sixels: Seq<u8>) -> bool {
    match shown_source(decoded, config) {
        Err(_) => sixels.len() == 0,
        Ok(source) => exists|image: Raster| #[trigger]
            is_shown_as(source, config, image) && image.wf() && sixels == sixel_text(image),
    }
}

/// An image that is shown has no side above its limit.
pub proof fn law_shown_size_is_within_limits(source: Raster, config: Config, image: Raster)
    requires
        is_shown_as(source, config, image),
    ensures
        1 <= image.width <= scale::side_limit(config.max_pixels_w, source.width),
        1 <= image.height <= scale::side_limit(config.max_pixels_h, source.height),
{
    let (width, height) = scale::constrained(source.width, source.height, config);
    scale::law_constrained_is_within_limits(source.width, source.height, config);
    scale::law_fitted_is_within_limits(source.width, source.height, width as u32, height as u32);
}

/// Decodes an image file and brings it to the size at which it is shown.
pub fn rgba_image(decoded: &[u8], config: &Config) -> (r: Result<Pixmap, DecodeError>)
    ensures
        match shown_source(decoded@, *config) {
            Ok(source) => r matches Ok(image) && is_shown_as(source, *config, image@)
                && image@.wf(),
            Err(error) => r == Err::<Pixmap, DecodeError>(error),
        },
{
    let image: Pixmap = if bytes::starts_with(decoded, &scan::PNG_MAGIC) {
        match raster::decode_png(decoded) {
            Ok(image) => image,
            Err(_) => return Err(DecodeError::Malformed),
        }
    } else if scan::is_gif_file(decoded) {
        match gif::first_gif_frame(decoded, config) {
            Ok(image) => image,
            Err(error) => return Err(error),
        }
    } else {
        return Err(DecodeError::Unsupported);
    };
    let (width, height) = constrained_dimensions(image.width, image.height, config);
    if width == image.width && height == image.height {
        Ok(image)
    } else if width > raster::MAX_SCALED_SIDE || height > raster::MAX_SCALED_SIDE {
        Err(DecodeError::ScaledTooLarge)
    } else {
        proof {
            scale::law_constrained_is_within_limits(image.width, image.height, *config);
        }
        Ok(raster::resize(image, width, height))
    }
}

/// Appends an image file as sixel graphics, or nothing where it cannot be shown.
pub fn sixel(out: &mut Vec<u8>, decoded: &[u8], config: &Config)
    ensures
        old(out)@.is_prefix_of(final(out)@),
        is_sixel_of(decoded@, *config, final(out)@.skip(old(out)@.len() as int)),
{
    match rgba_image(decoded, config) {
        Ok(image) => {
            sixel_pixels(out, &image);
            assert(out@.skip(old(out)@.len() as int) =~= sixel_text(image@));
        },
        Err(_) => {},
    }
}

/// A palette entry is the entry of its own color.
pub proof fn law_palette_is_consistent(index: u8)
    ensures
        ({
            let (red, green, blue) = entry_color(index);
            palette_entry(red, green, blue) == index
        }),
{
    let red = index / 32;
    let green = index / 4 % 8;
    let blue = index % 4;
    assert(red < 8 && green < 8 && blue < 4);
    assert(index == red * 32 + green * 4 + blue) by {
        assert(index / 32 == (index / 4) / 8);
    }
    assert((red * 255 / 7) / 32 == red);
    assert((green * 255 / 7) / 32 == green);
    assert((blue * 255 / 3) / 64 == blue);
}

/// Percentages run from 0 to 100 and keep the order of the values.
pub proof fn law_percentages_keep_the_order(a: u8, b: u8)
    requires
        a <= b,
    ensures
        percentage(a) <= percentage(b) <= 100,
        percentage(0) == 0,
        percentage(255) == 100,
{
}

/// A sixel has a bit for each of its six pixels, set where the pixel is drawn in the color.
pub proof fn law_sixels_show_pixels(image: Raster, top: int, color: int, x: int, k: nat)
    requires
        0 <= x < image.width,
        k < 6,
    ensures
        ({
            let bits = strip(image, top, color)[x] - 63;
            &&& 0 <= bits < 64
            &&& bits / bit(k) % 2 == 1 <==> has_color(image, x, top + k, color)
        }),
{
    let pixels = Seq::new(
        6,
        |k: int|
            if has_color(image, x, top + k, color) {
                1int
            } else {
                0int
            },
    );
    lemma_column(image, x, top, color, pixels);
    lemma_bits(pixels[0], pixels[1], pixels[2], pixels[3], pixels[4], pixels[5]);
    reveal_with_fuel(bit, 7);
}

/// The bits of a column as a sum.
proof fn lemma_column(image: Raster, x: int, top: int, color: int, pixels: Seq<int>)
    requires
        pixels.len() == 6,
        forall|k: int|
            0 <= k < 6 ==> #[trigger] pixels[k] == if has_color(image, x, top + k, color) {
                1int
            } else {
                0
            },
    ensures
        column_bits(image, x, top, color, 6) == pixels[0] + 2 * pixels[1] + 4 * pixels[2] + 8
            * pixels[3] + 16 * pixels[4] + 32 * pixels[5],
{
    reveal_with_fuel(bit, 7);
    assert(column_bits(image, x, top, color, 0) == 0);
    assert(column_bits(image, x, top, color, 1) == pixels[0]);
    assert(column_bits(image, x, top, color, 2) == pixels[0] + 2 * pixels[1]);
    assert(column_bits(image, x, top, color, 3) == pixels[0] + 2 * pixels[1] + 4 * pixels[2]);
    assert(column_bits(image, x, top, color, 4) == pixels[0] + 2 * pixels[1] + 4 * pixels[2] + 8
        * pixels[3]);
    assert(column_bits(image, x, top, color, 5) == pixels[0] + 2 * pixels[1] + 4 * pixels[2] + 8
        * pixels[3] + 16 * pixels[4]);
}

/// The binary digits of a number below 64.
proof fn lemma_bits(a: int, b: int, c: int, d: int, e: int, f: int)
    requires
        0 <= a <= 1,
        0 <= b <= 1,
        0 <= c <= 1,
        0 <= d <= 1,
        0 <= e <= 1,
        0 <= f <= 1,
    ensures
        ({
            let n = a + 2 * b + 4 * c + 8 * d + 16 * e + 32 * f;
            &&& n % 2 == a
            &&& n / 2 % 2 == b
            &&& n / 4 % 2 == c
            &&& n / 8 % 2 == d
            &&& n / 16 % 2 == e
            &&& n / 32 % 2 == f
        }),
{
    let n = a + 2 * b + 4 * c + 8 * d + 16 * e + 32 * f;
    assert(n / 2 == b + 2 * c + 4 * d + 8 * e + 16 * f);
    assert(n / 4 == c + 2 * d + 4 * e + 8 * f);
    assert(n / 8 == d + 2 * e + 4 * f);
    assert(n / 16 == e + 2 * f);
    assert(n / 32 == f);
}

/// A pixel that is drawn has one color, and one that is not drawn has none.
pub proof fn law_pixels_have_one_color(image: Raster, x: int, y: int, a: u8, b: u8)
    requires
        has_color(image, x, y, a as int),
        has_color(image, x, y, b as int),
    ensures
        a == b,
        image.rgba[image.offset(x, y) + 3] >= SIXEL_TRANSPARENT_ALPHA_THRESHOLD,
{
}

/// A palette entry keeps the high bits of a color: three of red, three of green and two of blue.
pub proof fn law_palette_keeps_high_bits(red: u8, green: u8, blue: u8)
    ensures
        palette_entry(red, green, blue) / 32 == red / 32,
        palette_entry(red, green, blue) / 4 % 8 == green / 32,
        palette_entry(red, green, blue) % 4 == blue / 64,
{
    let (r, g, b) = (red as int / 32, green as int / 32, blue as int / 64);
    let entry = palette_entry(red, green, blue) as int;
    assert(entry == r * 32 + g * 4 + b);
    assert(entry / 32 == r);
    assert(entry / 4 == r * 8 + g);
    assert(entry % 4 == b);
}

/// The colors of the palette are spread evenly from 0 to 255: eight values of red, eight of green
/// and four of blue.
pub proof fn law_palette_is_even(index: u8)
    ensures
        ({
            let (red, green, blue) = entry_color(index);
            &&& 7 * red <= 255 * (index as int / 32) < 7 * red + 7
            &&& 7 * green <= 255 * (index as int / 4 % 8) < 7 * green + 7
            &&& 3 * blue == 255 * (index as int % 4)
        }),
{
}

/// A percentage is the nearest one to its color value.
pub proof fn law_percentages_are_nearest(value: u8, percent: int)
    ensures
        -127 <= 255 * percentage(value) - 100 * value <= 127,
        -127 <= 255 * percent - 100 * value <= 127 ==> percent == percentage(value),
{
}

/// A color is shown within a step of the palette: less than 32 of 255 off in red and in green,
/// and less than 64 in blue.
pub proof fn law_palette_is_close(red: u8, green: u8, blue: u8)
    ensures
        ({
            let (r, g, b) = entry_color(palette_entry(red, green, blue));
            &&& -32 < r - red < 32
            &&& -32 < g - green < 32
            &&& -64 < b - blue < 64
        }),
{
    law_palette_keeps_high_bits(red, green, blue);
    let index = palette_entry(red, green, blue);
    law_palette_is_even(index);
    let (r, g, b) = entry_color(index);
    lemma_level_is_close(red as int, r as int);
    lemma_level_is_close(green as int, g as int);
    let k = blue as int / 64;
    assert(k == 0 || k == 1 || k == 2 || k == 3);
}

proof fn lemma_level_is_close(value: int, level: int)
    requires
        0 <= value < 256,
        7 * level <= 255 * (value / 32) < 7 * level + 7,
    ensures
        -32 < level - value < 32,
{
    let k = value / 32;
    assert(k == 0 || k == 1 || k == 2 || k == 3 || k == 4 || k == 5 || k == 6 || k == 7);
}

/// A pixel is drawn exactly where its alpha value is at least half of the largest, in the palette
/// entry of its color. The pixels stand row by row, four bytes for each.
pub proof fn law_drawn_pixels(image: Raster, x: int, y: int, color: u8)
    ensures
        has_color(image, x, y, color as int) <==> {
            let at = 4 * (y * image.width + x);
            &&& 0 <= x < image.width
            &&& 0 <= y < image.height
            &&& image.rgba[at + 3] >= 128
            &&& color == palette_entry(image.rgba[at], image.rgba[at + 1], image.rgba[at + 2])
        },
{
}

/// The pixels of a PNG file are those that it is decoded to, the pixels of a GIF file those of its
/// first frame, and any other file has none.
pub proof fn law_files_have_pixels(decoded: Seq<u8>, config: Config)
    ensures
        scan::is_png(decoded) ==> match raster::png_raster(decoded) {
            Some(image) => source_image(decoded, config) == Ok::<Raster, DecodeError>(image),
            None => source_image(decoded, config) == Err::<Raster, DecodeError>(
                DecodeError::Malformed,
            ),
        },
        scan::is_gif(decoded) ==> source_image(decoded, config) == gif::first_frame(
            decoded,
            config,
        ),
        !scan::is_image(decoded) ==> source_image(decoded, config) == Err::<Raster, DecodeError>(
            DecodeError::Unsupported,
        ),
{
    scan::law_images_start_so(decoded);
}

/// An image within the limits of the settings can be shown, and it is shown as it is, pixel by
/// pixel. A larger one can be shown where no side is longer than 1048576 pixels afterwards.
pub proof fn law_images_can_be_shown(decoded: Seq<u8>, config: Config, source: Raster)
    requires
        source_image(decoded, config) == Ok::<Raster, DecodeError>(source),
        source.width > 0,
        source.height > 0,
    ensures
        ({
            let (width, height) = scale::constrained(source.width, source.height, config);
            &&& width <= 0x10_0000 && height <= 0x10_0000 ==> shown_source(decoded, config) == Ok::<
                Raster,
                DecodeError,
            >(source)
            &&& shown_source(decoded, config) is Ok || shown_source(decoded, config) == Err::<
                Raster,
                DecodeError,
            >(DecodeError::ScaledTooLarge)
        }),
        (config.max_pixels_w matches Some(limit) ==> source.width <= limit) && (
        config.max_pixels_h matches Some(limit) ==> source.height <= limit) ==> {
            &&& shown_source(decoded, config) == Ok::<Raster, DecodeError>(source)
            &&& forall|image: Raster| #[trigger]
                is_shown_as(source, config, image) <==> image == source
        },
{
    if (config.max_pixels_w matches Some(limit) ==> source.width <= limit) && (
    config.max_pixels_h matches Some(limit) ==> source.height <= limit) {
        scale::law_small_images_keep_their_size(source.width, source.height, config);
    }
}

/// An image beyond the limits is shown as one that the filter makes of it for the size at which it
/// is to be shown, and of that size but for its shape.
pub proof fn law_large_images_are_scaled(source: Raster, config: Config, image: Raster)
    requires
        is_shown_as(source, config, image),
    ensures
        ({
            let (width, height) = scale::constrained(source.width, source.height, config);
            width != source.width || height != source.height ==> {
                &&& raster::can_resize_to(source, width as u32, height as u32, image)
                &&& (image.width as int, image.height as int) == scale::fitted(
                    source.width as int,
                    source.height as int,
                    width,
                    height,
                )
            }
        }),
{
}

} // verus!
