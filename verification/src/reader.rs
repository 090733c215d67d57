//! What a terminal makes of sixel graphics.

use vstd::prelude::*;

use crate::bytes;
use crate::config::Config;
use crate::raster::{DecodeError, Raster};
use crate::sixel;

verus! {

/// The sixels that a terminal reads: `!`, a number and a sixel stand for as many of it.
pub open spec fn expanded(text: Seq<u8>) -> Seq<u8>
    decreases text.len(),
    via expanded_decreases
{
    if text.len() == 0 {
        Seq::empty()
    } else if text[0] == 0x21 {
        let end = bytes::digits_end(text, 1);
        if end < text.len() {
            Seq::new(bytes::number(text.subrange(1, end)) as nat, |i: int| text[end]) + expanded(
                text.skip(end + 1),
            )
        } else {
            Seq::empty()
        }
    } else {
        seq![text[0]] + expanded(text.skip(1))
    }
}

#[via_fn]
proof fn expanded_decreases(text: Seq<u8>) {
    if text.len() > 0 {
        bytes::lemma_digits_end(text, 1);
    }
}

/// A strip is read back as it was, whatever follows it.
proof fn lemma_coded_is_read_back(s: Seq<u8>, rest: Seq<u8>)
    requires
        forall|i: int| 0 <= i < s.len() ==> #[trigger] s[i] >= 63,
    ensures
        expanded(sixel::coded(s) + rest) == s + expanded(rest),
    decreases s.len(),
{
    if s.len() == 0 {
        assert(sixel::coded(s) + rest =~= rest);
        assert(s + expanded(rest) =~= expanded(rest));
    } else {
        let run = sixel::last_run(s);
        sixel::lemma_last_run(s);
        let start = s.take(s.len() - run);
        let text = sixel::run_text(run, s.last());
        assert(sixel::coded(s) + rest =~= sixel::coded(start) + (text + rest));
        assert(forall|i: int| 0 <= i < start.len() ==> #[trigger] start[i] == s[i]);
        lemma_coded_is_read_back(start, text + rest);
        lemma_run_is_read_back(run, s.last(), rest);
        assert(s + expanded(rest) =~= start + (Seq::new(run, |i: int| s.last()) + expanded(rest)));
    }
}

proof fn lemma_run_is_read_back(n: nat, byte: u8, rest: Seq<u8>)
    requires
        byte >= 63,
    ensures
        expanded(sixel::run_text(n, byte) + rest) == Seq::new(n, |i: int| byte) + expanded(rest),
    decreases n,
{
    let text = sixel::run_text(n, byte) + rest;
    if n > 3 {
        let digits = bytes::decimal(n);
        bytes::lemma_decimal(n);
        assert forall|i: int| 1 <= i < 1 + digits.len() implies bytes::is_digit(
            #[trigger] text[i],
        ) by {
            assert(text[i] == digits[i - 1]);
        }
        let end = 1 + digits.len() as int;
        assert(text[end] == byte);
        bytes::lemma_digits_end_is(text, 1, end);
        assert(text.subrange(1, end) =~= digits);
        assert(text.skip(end + 1) =~= rest);
        assert(expanded(text) =~= Seq::new(n, |i: int| byte) + expanded(rest));
    } else if n == 0 {
        assert(text =~= rest);
        assert(Seq::new(0, |i: int| byte) + expanded(rest) =~= expanded(rest));
    } else {
        assert(text.skip(1) =~= sixel::run_text((n - 1) as nat, byte) + rest);
        lemma_run_is_read_back((n - 1) as nat, byte, rest);
        assert(expanded(text) =~= Seq::new(n, |i: int| byte) + expanded(rest));
    }
}

/// What a terminal reads of a strip is the strip.
pub proof fn law_strips_are_read_back(image: Raster, top: int, color: int)
    ensures
        expanded(sixel::coded(sixel::strip(image, top, color))) == sixel::strip(image, top, color),
{
    let s = sixel::strip(image, top, color);
    assert forall|i: int| 0 <= i < s.len() implies #[trigger] s[i] >= 63 by {
        sixel::law_sixels_show_pixels(image, top, color, i, 0);
    }
    lemma_coded_is_read_back(s, Seq::empty());
    assert(sixel::coded(s) + Seq::empty() =~= sixel::coded(s));
    assert(s + expanded(Seq::empty()) =~= s);
}

pub const HASH: u8 = 0x23;

pub const QUOTE: u8 = 0x22;

pub const SEMICOLON: u8 = 0x3b;

pub const ESCAPE: u8 = 0x1b;

/// Where a terminal paints next, and with which color register.
pub ghost struct Pen {
    pub register: int,
    pub x: int,
    pub top: int,
}

impl Pen {
    /// The pen `n` columns to the right.
    pub open spec fn moved(self, n: int) -> Pen {
        Pen { register: self.register, x: self.x + n, top: self.top }
    }

    /// The pen with another color register.
    pub open spec fn with_register(self, register: int) -> Pen {
        Pen { register, x: self.x, top: self.top }
    }

    /// The pen at the start of its band.
    pub open spec fn returned(self) -> Pen {
        Pen { register: self.register, x: 0, top: self.top }
    }

    /// The pen at the start of the next band.
    pub open spec fn lowered(self) -> Pen {
        Pen { register: self.register, x: 0, top: self.top + 6 }
    }
}

/// The byte can stand among the parameters of a command.
pub open spec fn is_parameter(b: u8) -> bool {
    bytes::is_digit(b) || b == SEMICOLON
}

/// The first position from `from` on that holds no parameter.
pub open spec fn parameters_end(text: Seq<u8>, from: int) -> int
    decreases text.len() - from,
{
    if 0 <= from < text.len() && is_parameter(text[from]) {
        parameters_end(text, from + 1)
    } else {
        from
    }
}

/// The byte is a sixel.
pub open spec fn is_sixel(b: u8) -> bool {
    63 <= b <= 126
}

/// `n` equal sixels from the pen on paint the pixel in column `x` of row `y` with register `c`.
pub open spec fn run_paints(pen: Pen, n: int, sixel: u8, x: int, y: int, c: int) -> bool {
    &&& is_sixel(sixel)
    &&& c == pen.register
    &&& pen.x <= x < pen.x + n
    &&& pen.top <= y < pen.top + 6
    &&& (sixel - 63) / sixel::bit((y - pen.top) as nat) % 2 == 1
}

/// Sixel data from the pen on paints the pixel in column `x` of row `y` with register `c`.
///
/// `!` repeats a sixel, `#` chooses a color register and may define its color, `"` tells the
/// size, `$` goes back to the start of the band, `-` goes on to the next band, and an escape
/// character ends the data.
pub open spec fn paints(text: Seq<u8>, pen: Pen, x: int, y: int, c: int) -> bool
    decreases text.len(),
    via paints_decreases
{
    if text.len() == 0 || text[0] == ESCAPE {
        false
    } else if text[0] == 0x21 {
        let end = bytes::digits_end(text, 1);
        let n = bytes::number(text.subrange(1, end));
        end < text.len() && (run_paints(pen, n, text[end], x, y, c) || paints(
            text.skip(end + 1),
            pen.moved(n),
            x,
            y,
            c,
        ))
    } else if text[0] == 0x23 {
        let register = bytes::number(text.subrange(1, bytes::digits_end(text, 1)));
        paints(text.skip(parameters_end(text, 1)), pen.with_register(register), x, y, c)
    } else if text[0] == 0x22 {
        paints(text.skip(parameters_end(text, 1)), pen, x, y, c)
    } else if text[0] == 0x24 {
        paints(text.skip(1), pen.returned(), x, y, c)
    } else if text[0] == 0x2d {
        paints(text.skip(1), pen.lowered(), x, y, c)
    } else if is_sixel(text[0]) {
        run_paints(pen, 1, text[0], x, y, c) || paints(text.skip(1), pen.moved(1), x, y, c)
    } else {
        paints(text.skip(1), pen, x, y, c)
    }
}

#[via_fn]
proof fn paints_decreases(text: Seq<u8>, pen: Pen, x: int, y: int, c: int) {
    if text.len() > 0 {
        bytes::lemma_digits_end(text, 1);
        lemma_parameters_end(text, 1);
    }
}

proof fn lemma_parameters_end(text: Seq<u8>, from: int)
    requires
        0 <= from <= text.len(),
    ensures
        from <= parameters_end(text, from) <= text.len(),
    decreases text.len() - from,
{
    if from < text.len() && is_parameter(text[from]) {
        lemma_parameters_end(text, from + 1);
    }
}

/// A whole image as sixel graphics paints the pixel in column `x` of row `y` with register `c`.
pub open spec fn shows(text: Seq<u8>, x: int, y: int, c: int) -> bool {
    &&& bytes::text("\x1bPq").is_prefix_of(text)
    &&& paints(text.skip(3), Pen { register: 0, x: 0, top: 0 }, x, y, c)
}

/// Every byte is a parameter.
pub open spec fn all_parameters(text: Seq<u8>) -> bool {
    forall|i: int| 0 <= i < text.len() ==> is_parameter(#[trigger] text[i])
}

/// The text goes on with something that is no parameter.
pub open spec fn goes_on(text: Seq<u8>) -> bool {
    text.len() > 0 && !is_parameter(text[0])
}

proof fn lemma_parameters_joined(a: Seq<u8>, b: Seq<u8>)
    requires
        all_parameters(a),
        all_parameters(b),
    ensures
        all_parameters(a + b),
{
    assert forall|i: int| 0 <= i < (a + b).len() implies is_parameter(#[trigger] (a + b)[i]) by {
        if i < a.len() {
            assert((a + b)[i] == a[i]);
        } else {
            assert((a + b)[i] == b[i - a.len()]);
        }
    }
}

proof fn lemma_decimal_is_parameters(n: nat)
    ensures
        all_parameters(bytes::decimal(n)),
{
    bytes::lemma_decimal(n);
    assert forall|i: int| 0 <= i < bytes::decimal(n).len() implies is_parameter(
        #[trigger] bytes::decimal(n)[i],
    ) by {
        assert(bytes::is_digit(bytes::decimal(n)[i]));
    }
}

proof fn lemma_parameters_end_is(text: Seq<u8>, from: int, end: int)
    requires
        0 <= from <= end < text.len(),
        forall|i: int| from <= i < end ==> is_parameter(#[trigger] text[i]),
        !is_parameter(text[end]),
    ensures
        parameters_end(text, from) == end,
    decreases end - from,
{
    if from < end {
        assert(is_parameter(text[from]));
        lemma_parameters_end_is(text, from + 1, end);
    }
}

/// One byte and its parameters are read as one command.
proof fn lemma_command(command: u8, parameters: Seq<u8>, rest: Seq<u8>)
    requires
        all_parameters(parameters),
        goes_on(rest),
    ensures
        parameters_end(seq![command] + parameters + rest, 1) == 1 + parameters.len(),
        (seq![command] + parameters + rest).skip(1 + parameters.len() as int) == rest,
        (seq![command] + parameters + rest)[0] == command,
{
    let text = seq![command] + parameters + rest;
    let end = 1 + parameters.len() as int;
    assert forall|i: int| 1 <= i < end implies is_parameter(#[trigger] text[i]) by {
        assert(text[i] == parameters[i - 1]);
    }
    assert(text[end] == rest[0]);
    lemma_parameters_end_is(text, 1, end);
    assert(text.skip(end) =~= rest);
}

/// A register is chosen by its number, whether or not its color follows.
proof fn lemma_paint_register(
    n: nat,
    color: Seq<u8>,
    rest: Seq<u8>,
    pen: Pen,
    x: int,
    y: int,
    c: int,
)
    requires
        all_parameters(color),
        color.len() > 0 ==> color[0] == SEMICOLON,
        goes_on(rest),
    ensures
        paints(seq![HASH] + (bytes::decimal(n) + color) + rest, pen, x, y, c) == paints(
            rest,
            pen.with_register(n as int),
            x,
            y,
            c,
        ),
{
    let digits = bytes::decimal(n);
    let text = seq![HASH] + (digits + color) + rest;
    lemma_decimal_is_parameters(n);
    lemma_parameters_joined(digits, color);
    lemma_command(HASH, digits + color, rest);
    bytes::lemma_decimal(n);
    let end = 1 + digits.len() as int;
    assert forall|i: int| 1 <= i < end implies bytes::is_digit(#[trigger] text[i]) by {
        assert(text[i] == digits[i - 1]);
    }
    assert(text[end] == if color.len() > 0 {
        color[0]
    } else {
        rest[0]
    });
    bytes::lemma_digits_end_is(text, 1, end);
    assert(text.subrange(1, end) =~= digits);
}

/// A run paints its sixels.
proof fn lemma_paint_run(n: nat, byte: u8, rest: Seq<u8>, pen: Pen, x: int, y: int, c: int)
    requires
        is_sixel(byte),
    ensures
        paints(sixel::run_text(n, byte) + rest, pen, x, y, c) == (run_paints(
            pen,
            n as int,
            byte,
            x,
            y,
            c,
        ) || paints(rest, pen.moved(n as int), x, y, c)),
    decreases n,
{
    let text = sixel::run_text(n, byte) + rest;
    if n > 3 {
        let digits = bytes::decimal(n);
        bytes::lemma_decimal(n);
        assert forall|i: int| 1 <= i < 1 + digits.len() implies bytes::is_digit(
            #[trigger] text[i],
        ) by {
            assert(text[i] == digits[i - 1]);
        }
        let end = 1 + digits.len() as int;
        assert(text[end] == byte);
        bytes::lemma_digits_end_is(text, 1, end);
        assert(text.subrange(1, end) =~= digits);
        assert(text.skip(end + 1) =~= rest);
    } else if n == 0 {
        assert(text =~= rest);
        assert(pen.moved(0) == pen);
    } else {
        assert(text.skip(1) =~= sixel::run_text((n - 1) as nat, byte) + rest);
        lemma_paint_run((n - 1) as nat, byte, rest, pen.moved(1), x, y, c);
        assert(pen.moved(1).moved(n - 1) == pen.moved(n as int));
    }
}

/// A strip of sixels from the pen on paints the pixel in column `x` of row `y` with register
/// `c`.
pub open spec fn strip_paints(s: Seq<u8>, pen: Pen, x: int, y: int, c: int) -> bool {
    pen.x <= x < pen.x + s.len() && run_paints(pen, s.len() as int, s[x - pen.x], x, y, c)
}

/// A strip paints its sixels, however its runs are written.
proof fn lemma_paint_strip(s: Seq<u8>, rest: Seq<u8>, pen: Pen, x: int, y: int, c: int)
    requires
        forall|i: int| 0 <= i < s.len() ==> is_sixel(#[trigger] s[i]),
    ensures
        paints(sixel::coded(s) + rest, pen, x, y, c) == (strip_paints(s, pen, x, y, c) || paints(
            rest,
            pen.moved(s.len() as int),
            x,
            y,
            c,
        )),
    decreases s.len(),
{
    if s.len() == 0 {
        assert(sixel::coded(s) + rest =~= rest);
        assert(pen.moved(0) == pen);
    } else {
        let run = sixel::last_run(s);
        sixel::lemma_last_run(s);
        let start = s.take(s.len() - run);
        let text = sixel::run_text(run, s.last());
        assert(sixel::coded(s) + rest =~= sixel::coded(start) + (text + rest));
        assert(forall|i: int| 0 <= i < start.len() ==> #[trigger] start[i] == s[i]);
        lemma_paint_strip(start, text + rest, pen, x, y, c);
        let there = pen.moved(start.len() as int);
        lemma_paint_run(run, s.last(), rest, there, x, y, c);
        assert(there.moved(run as int) == pen.moved(s.len() as int));
        if start.len() <= x - pen.x < s.len() {
            assert(s[x - pen.x] == s.last());
        }
        if 0 <= x - pen.x < start.len() {
            assert(s[x - pen.x] == start[x - pen.x]);
        }
    }
}

/// A strip does not start with a parameter.
proof fn lemma_strip_goes_on(s: Seq<u8>, rest: Seq<u8>)
    requires
        s.len() > 0,
        forall|i: int| 0 <= i < s.len() ==> is_sixel(#[trigger] s[i]),
    ensures
        goes_on(sixel::coded(s) + rest),
    decreases s.len(),
{
    let run = sixel::last_run(s);
    sixel::lemma_last_run(s);
    let start = s.take(s.len() - run);
    let text = sixel::run_text(run, s.last());
    assert(text.len() > 0 && !is_parameter(text[0]));
    if start.len() > 0 {
        assert(forall|i: int| 0 <= i < start.len() ==> #[trigger] start[i] == s[i]);
        lemma_strip_goes_on(start, text + rest);
        assert(sixel::coded(s) + rest =~= sixel::coded(start) + (text + rest));
    } else {
        assert(sixel::coded(start) =~= Seq::empty());
        assert((sixel::coded(s) + rest)[0] == text[0]);
    }
}

/// A band shows the pixel in column `x` of row `y` in color `c`, which is below `n`.
pub open spec fn band_shows(image: Raster, top: int, n: nat, x: int, y: int, c: int) -> bool {
    0 <= c < n && top <= y < top + 6 && sixel::has_color(image, x, y, c)
}

proof fn lemma_hash()
    ensures
        bytes::text("#") == seq![HASH],
{
    reveal_strlit("#");
    vstd::utf8::is_ascii_chars_encode_utf8("#"@);
    assert(bytes::text("#") =~= seq![HASH]);
}

/// The bytes of a strip are sixels.
proof fn lemma_strip_is_sixels(image: Raster, top: int, color: int)
    ensures
        forall|i: int|
            0 <= i < sixel::strip(image, top, color).len() ==> is_sixel(
                #[trigger] sixel::strip(image, top, color)[i],
            ),
{
    let s = sixel::strip(image, top, color);
    assert forall|i: int| 0 <= i < s.len() implies is_sixel(#[trigger] s[i]) by {
        sixel::law_sixels_show_pixels(image, top, color, i, 0);
    }
}

/// The strip of a color paints the pixels of that color in its band.
proof fn lemma_paint_color(
    image: Raster,
    top: int,
    color: nat,
    rest: Seq<u8>,
    pen: Pen,
    x: int,
    y: int,
    c: int,
)
    requires
        image.width > 0,
        pen.x == 0,
        pen.top == top,
    ensures
        ({
            let s = sixel::strip(image, top, color as int);
            let text = bytes::text("#") + bytes::decimal(color) + sixel::coded(s) + rest;
            &&& paints(text, pen, x, y, c) == (c == color && band_shows(
                image,
                top,
                color + 1,
                x,
                y,
                c,
            ) || paints(rest, pen.with_register(color as int).moved(image.width as int), x, y, c))
            &&& text.len() > 0
            &&& text[0] == HASH
        }),
{
    let s = sixel::strip(image, top, color as int);
    let code = sixel::coded(s);
    let chosen = pen.with_register(color as int);
    lemma_hash();
    lemma_strip_is_sixels(image, top, color as int);
    lemma_strip_goes_on(s, rest);
    lemma_paint_register(color, Seq::empty(), code + rest, pen, x, y, c);
    assert(seq![HASH] + (bytes::decimal(color) + Seq::empty()) + (code + rest) =~= seq![HASH]
        + bytes::decimal(color) + code + rest);
    lemma_paint_strip(s, rest, chosen, x, y, c);
    if 0 <= x < image.width && top <= y < top + 6 {
        sixel::law_sixels_show_pixels(image, top, color as int, x, (y - top) as nat);
    }
}

/// The strips of a band paint the pixels of their colors.
proof fn lemma_paint_strips(
    image: Raster,
    top: int,
    n: nat,
    rest: Seq<u8>,
    pen: Pen,
    x: int,
    y: int,
    c: int,
) -> (after: Pen)
    requires
        image.width > 0,
        pen.x == 0,
        pen.top == top,
    ensures
        after.x == 0,
        after.top == top,
        paints(sixel::strips_text(image, top, n) + rest, pen, x, y, c) == (band_shows(
            image,
            top,
            n,
            x,
            y,
            c,
        ) || paints(rest, after, x, y, c)),
    decreases n,
{
    if n == 0 {
        assert(sixel::strips_text(image, top, 0) + rest =~= rest);
        pen
    } else {
        let color = (n - 1) as nat;
        if sixel::uses_color(image, n - 1) {
            let code = bytes::text("#") + bytes::decimal(color) + sixel::coded(
                sixel::strip(image, top, color as int),
            );
            let end = seq![sixel::DOLLAR] + rest;
            assert(sixel::strips_text(image, top, n) + rest =~= sixel::strips_text(
                image,
                top,
                color,
            ) + (code + end));
            let between = lemma_paint_strips(image, top, color, code + end, pen, x, y, c);
            lemma_paint_color(image, top, color, end, between, x, y, c);
            let there = between.with_register(color as int).moved(image.width as int);
            assert(end.skip(1) =~= rest);
            assert(end[0] == sixel::DOLLAR);
            there.returned()
        } else {
            assert(!sixel::has_color(image, x, y, n - 1));
            lemma_paint_strips(image, top, color, rest, pen, x, y, c)
        }
    }
}

/// Strips without the `$` at their end.
pub open spec fn unended(strips: Seq<u8>) -> Seq<u8> {
    if strips.len() == 0 {
        strips
    } else {
        strips.drop_last()
    }
}

/// The strips of a band paint the same without the `$` at their end.
proof fn lemma_paint_band(
    image: Raster,
    top: int,
    n: nat,
    rest: Seq<u8>,
    pen: Pen,
    x: int,
    y: int,
    c: int,
) -> (after: Pen)
    requires
        image.width > 0,
        pen.x == 0,
        pen.top == top,
    ensures
        after.top == top,
        paints(unended(sixel::strips_text(image, top, n)) + rest, pen, x, y, c) == (band_shows(
            image,
            top,
            n,
            x,
            y,
            c,
        ) || paints(rest, after, x, y, c)),
    decreases n,
{
    if n == 0 {
        assert(unended(sixel::strips_text(image, top, 0)) + rest =~= rest);
        pen
    } else {
        let color = (n - 1) as nat;
        if sixel::uses_color(image, n - 1) {
            let code = bytes::text("#") + bytes::decimal(color) + sixel::coded(
                sixel::strip(image, top, color as int),
            );
            assert(unended(sixel::strips_text(image, top, n)) + rest =~= sixel::strips_text(
                image,
                top,
                color,
            ) + (code + rest));
            let between = lemma_paint_strips(image, top, color, code + rest, pen, x, y, c);
            lemma_paint_color(image, top, color, rest, between, x, y, c);
            between.with_register(color as int).moved(image.width as int)
        } else {
            assert(!sixel::has_color(image, x, y, n - 1));
            lemma_paint_band(image, top, color, rest, pen, x, y, c)
        }
    }
}

/// Bands paint their pixels.
proof fn lemma_paint_bands(
    image: Raster,
    n: nat,
    rest: Seq<u8>,
    pen: Pen,
    x: int,
    y: int,
    c: int,
) -> (after: Pen)
    requires
        image.width > 0,
        n > 0,
        pen.x == 0,
        pen.top == 0,
    ensures
        after.top == 6 * (n - 1),
        paints(sixel::bands_text(image, n) + rest, pen, x, y, c) == (0 <= c < 256 && 0 <= y < 6 * n
            && sixel::has_color(image, x, y, c) || paints(rest, after, x, y, c)),
    decreases n,
{
    let top = 6 * (n - 1);
    let band = sixel::band_text(image, top);
    if n == 1 {
        lemma_paint_band(image, 0, 256, rest, pen, x, y, c)
    } else {
        let next = seq![sixel::HYPHEN] + (band + rest);
        assert(sixel::bands_text(image, n) + rest =~= sixel::bands_text(image, (n - 1) as nat)
            + next);
        let between = lemma_paint_bands(image, (n - 1) as nat, next, pen, x, y, c);
        assert(next.skip(1) =~= band + rest);
        assert(next[0] == sixel::HYPHEN);
        lemma_paint_band(image, top, 256, rest, between.lowered(), x, y, c)
    }
}

/// Strips start with the choice of a register.
proof fn lemma_strips_start(image: Raster, top: int, n: nat)
    ensures
        ({
            let strips = sixel::strips_text(image, top, n);
            strips.len() > 0 ==> strips.len() > 1 && strips[0] == HASH
        }),
    decreases n,
{
    if n > 0 {
        lemma_strips_start(image, top, (n - 1) as nat);
        lemma_hash();
        bytes::lemma_decimal_last((n - 1) as nat);
    }
}

/// Bands do not start with a parameter.
proof fn lemma_bands_go_on(image: Raster, n: nat, rest: Seq<u8>)
    requires
        n > 0,
        goes_on(rest),
    ensures
        goes_on(sixel::bands_text(image, n) + rest),
    decreases n,
{
    if n == 1 {
        lemma_strips_start(image, 0, 256);
        if sixel::band_text(image, 0).len() == 0 {
            assert(sixel::bands_text(image, n) + rest =~= rest);
        }
    } else {
        let next = seq![sixel::HYPHEN] + (sixel::band_text(image, 6 * (n - 1)) + rest);
        assert(next[0] == sixel::HYPHEN);
        lemma_bands_go_on(image, (n - 1) as nat, next);
        assert(sixel::bands_text(image, n) + rest =~= sixel::bands_text(image, (n - 1) as nat)
            + next);
    }
}

/// The definition of a color.
pub open spec fn color_parameters(red: nat, green: nat, blue: nat) -> Seq<u8> {
    bytes::text(";2;") + bytes::decimal(red) + bytes::text(";") + bytes::decimal(green)
        + bytes::text(";") + bytes::decimal(blue)
}

proof fn lemma_color_parameters(red: nat, green: nat, blue: nat)
    ensures
        all_parameters(color_parameters(red, green, blue)),
        color_parameters(red, green, blue).len() > 0,
        color_parameters(red, green, blue)[0] == SEMICOLON,
{
    reveal_strlit(";2;");
    reveal_strlit(";");
    vstd::utf8::is_ascii_chars_encode_utf8(";2;"@);
    vstd::utf8::is_ascii_chars_encode_utf8(";"@);
    let (first, between) = (bytes::text(";2;"), bytes::text(";"));
    assert(first =~= seq![SEMICOLON, 0x32, SEMICOLON]);
    assert(between =~= seq![SEMICOLON]);
    lemma_decimal_is_parameters(red);
    lemma_decimal_is_parameters(green);
    lemma_decimal_is_parameters(blue);
    let (r, g, b) = (bytes::decimal(red), bytes::decimal(green), bytes::decimal(blue));
    lemma_parameters_joined(first, r);
    lemma_parameters_joined(first + r, between);
    lemma_parameters_joined(first + r + between, g);
    lemma_parameters_joined(first + r + between + g, between);
    lemma_parameters_joined(first + r + between + g + between, b);
}

/// The palette paints nothing.
proof fn lemma_paint_palette(
    image: Raster,
    n: nat,
    rest: Seq<u8>,
    pen: Pen,
    x: int,
    y: int,
    c: int,
) -> (after: Pen)
    requires
        goes_on(rest),
    ensures
        after.x == pen.x,
        after.top == pen.top,
        goes_on(sixel::palette_text(image, n) + rest),
        paints(sixel::palette_text(image, n) + rest, pen, x, y, c) == paints(rest, after, x, y, c),
    decreases n,
{
    if n == 0 {
        assert(sixel::palette_text(image, 0) + rest =~= rest);
        pen
    } else if sixel::uses_color(image, n - 1) {
        let (red, green, blue) = sixel::entry_color((n - 1) as u8);
        let color = color_parameters(
            sixel::percentage(red) as nat,
            sixel::percentage(green) as nat,
            sixel::percentage(blue) as nat,
        );
        let register = bytes::decimal((n - 1) as nat);
        let definition = seq![HASH] + (register + color) + rest;
        lemma_hash();
        lemma_color_parameters(
            sixel::percentage(red) as nat,
            sixel::percentage(green) as nat,
            sixel::percentage(blue) as nat,
        );
        assert(definition[0] == HASH);
        let before = sixel::palette_text(image, (n - 1) as nat);
        assert(sixel::palette_text(image, n) == before + (seq![HASH] + (register + color))) by {
            broadcast use bytes::group_append;

        }
        assert(sixel::palette_text(image, n) + rest =~= before + definition);
        let between = lemma_paint_palette(image, (n - 1) as nat, definition, pen, x, y, c);
        lemma_paint_register((n - 1) as nat, color, rest, between, x, y, c);
        between.with_register(n - 1)
    } else {
        lemma_paint_palette(image, (n - 1) as nat, rest, pen, x, y, c)
    }
}

/// What stands before the palette.
pub open spec fn sixel_head(image: Raster) -> Seq<u8> {
    bytes::text("\x1bPq\"1;1;") + bytes::decimal(image.width as nat) + bytes::text(";")
        + bytes::decimal(image.height as nat)
}

/// The head of an image tells its size and paints nothing.
proof fn lemma_head(image: Raster, rest: Seq<u8>, pen: Pen, x: int, y: int, c: int)
    requires
        goes_on(rest),
    ensures
        bytes::text("\x1bPq").is_prefix_of(sixel_head(image) + rest),
        paints((sixel_head(image) + rest).skip(3), pen, x, y, c) == paints(rest, pen, x, y, c),
{
    reveal_strlit("\x1bPq\"1;1;");
    reveal_strlit("\x1bPq");
    reveal_strlit(";");
    vstd::utf8::is_ascii_chars_encode_utf8("\x1bPq\"1;1;"@);
    vstd::utf8::is_ascii_chars_encode_utf8("\x1bPq"@);
    vstd::utf8::is_ascii_chars_encode_utf8(";"@);
    let lead = seq![ESCAPE, 0x50, 0x71];
    let ratio = seq![0x31u8, SEMICOLON, 0x31, SEMICOLON];
    let between = bytes::text(";");
    assert(bytes::text("\x1bPq") =~= lead);
    assert(bytes::text("\x1bPq\"1;1;") =~= lead + seq![QUOTE] + ratio);
    assert(between =~= seq![SEMICOLON]);
    let (w, h) = (bytes::decimal(image.width as nat), bytes::decimal(image.height as nat));
    lemma_decimal_is_parameters(image.width as nat);
    lemma_decimal_is_parameters(image.height as nat);
    lemma_parameters_joined(ratio, w);
    lemma_parameters_joined(ratio + w, between);
    lemma_parameters_joined(ratio + w + between, h);
    let parameters = ratio + w + between + h;
    lemma_command(QUOTE, parameters, rest);
    let text = sixel_head(image) + rest;
    assert(text =~= lead + (seq![QUOTE] + parameters + rest));
    assert(text.skip(3) =~= seq![QUOTE] + parameters + rest);
    assert(lead =~= text.subrange(0, 3));
}

/// What a terminal shows of an image as sixel graphics is the image: the pixel in column `x` of
/// row `y` is painted with the register of a color exactly where the image draws it in that
/// color, and a pixel that is not drawn is not painted. The graphics start with the size of the
/// image and end with the end of an escape sequence.
pub proof fn law_terminals_show_the_image(image: Raster, x: int, y: int, c: int)
    requires
        image.width > 0,
        image.height > 0,
    ensures
        shows(sixel::sixel_text(image), x, y, c) <==> 0 <= c < 256 && sixel::has_color(
            image,
            x,
            y,
            c,
        ),
        sixel_head(image).is_prefix_of(sixel::sixel_text(image)),
        bytes::text("\x1b\\").is_suffix_of(sixel::sixel_text(image)),
{
    reveal_strlit("\x1b\\");
    vstd::utf8::is_ascii_chars_encode_utf8("\x1b\\"@);
    let end = bytes::text("\x1b\\");
    assert(end.len() == 2 && end[0] == ESCAPE);
    let n = sixel::band_count(image.height);
    let bands = sixel::bands_text(image, n) + end;
    let palette = sixel::palette_text(image, 256);
    let start = Pen { register: 0, x: 0, top: 0 };
    lemma_bands_go_on(image, n, end);
    let after = lemma_paint_palette(image, 256, bands, start, x, y, c);
    let done = lemma_paint_bands(image, n, end, after, x, y, c);
    assert(!paints(end, done, x, y, c));
    lemma_head(image, palette + bands, start, x, y, c);
    let text = sixel::sixel_text(image);
    assert(text =~= sixel_head(image) + (palette + bands));
    assert(sixel_head(image) =~= text.subrange(0, sixel_head(image).len() as int));
    assert(end =~= text.subrange(text.len() - 2, text.len() as int));
}

/// What is written of an image file that can be shown shows an image that the file is shown
/// as, pixel by pixel.
pub proof fn law_files_are_shown(decoded: Seq<u8>, config: Config, sixels: Seq<u8>)
    requires
        sixel::is_sixel_of(decoded, config, sixels),
        sixel::shown_source(decoded, config) is Ok,
    ensures
        exists|image: Raster|
            {
                &&& #[trigger] sixel::is_shown_as(
                    sixel::shown_source(decoded, config)->Ok_0,
                    config,
                    image,
                )
                &&& image.wf()
                &&& sixel_head(image).is_prefix_of(sixels)
                &&& bytes::text("\x1b\\").is_suffix_of(sixels)
                &&& forall|x: int, y: int, c: int|
                    #[trigger] shows(sixels, x, y, c) <==> 0 <= c < 256 && sixel::has_color(
                        image,
                        x,
                        y,
                        c,
                    )
            },
{
    let source = sixel::shown_source(decoded, config)->Ok_0;
    let image = choose|image: Raster| #[trigger]
        sixel::is_shown_as(source, config, image) && image.wf() && sixels == sixel::sixel_text(
            image,
        );
    sixel::law_shown_size_is_within_limits(source, config, image);
    law_terminals_show_the_image(image, 0, 0, 0);
    assert forall|x: int, y: int, c: int| #[trigger] shows(sixels, x, y, c) <==> 0 <= c < 256
        && sixel::has_color(image, x, y, c) by {
        law_terminals_show_the_image(image, x, y, c);
    }
}

/// The number after `k` semicolons of a list of parameters; nothing where there is none.
pub open spec fn parameter(text: Seq<u8>, k: nat) -> Option<int>
    decreases k,
{
    let end = bytes::digits_end(text, 0);
    if k == 0 {
        if end > 0 {
            Some(bytes::number(text.take(end)))
        } else {
            None
        }
    } else if end < text.len() && text[end] == SEMICOLON {
        parameter(text.skip(end + 1), (k - 1) as nat)
    } else {
        None
    }
}

/// The command defines the color of a register: the register, a 2 for red, green and blue, and
/// the three percentages.
pub open spec fn is_definition(text: Seq<u8>) -> bool {
    &&& text.len() > 0
    &&& text[0] == HASH
    &&& parameter(text.skip(1), 1) == Some(2int)
    &&& parameter(text.skip(1), 4) is Some
}

/// The red, green and blue percentages that a register has after the definitions at the start of
/// sixel data: the last of them counts. Nothing for a register that is not defined there.
pub open spec fn defined_color(text: Seq<u8>, c: int) -> Option<(int, int, int)>
    decreases text.len(),
    via defined_color_decreases
{
    if text.len() > 0 && text[0] == QUOTE {
        defined_color(text.skip(parameters_end(text, 1)), c)
    } else if is_definition(text) {
        let later = defined_color(text.skip(parameters_end(text, 1)), c);
        if later is Some {
            later
        } else if parameter(text.skip(1), 0) == Some(c) {
            match (
                parameter(text.skip(1), 2),
                parameter(text.skip(1), 3),
                parameter(text.skip(1), 4),
            ) {
                (Some(red), Some(green), Some(blue)) => Some((red, green, blue)),
                _ => None,
            }
        } else {
            None
        }
    } else {
        None
    }
}

#[via_fn]
proof fn defined_color_decreases(text: Seq<u8>, c: int) {
    if text.len() > 0 {
        lemma_parameters_end(text, 1);
    }
}

/// The color in which whole sixel graphics show what they paint with register `c`.
pub open spec fn shown_color(text: Seq<u8>, c: int) -> Option<(int, int, int)> {
    defined_color(text.skip(3), c)
}

/// The size that whole sixel graphics tell before anything else, for square pixels.
pub open spec fn told_size(text: Seq<u8>) -> Option<(int, int)> {
    if bytes::text("\x1bPq").is_prefix_of(text) && text.len() > 3 && text[3] == QUOTE && parameter(
        text.skip(4),
        0,
    ) == Some(1int) && parameter(text.skip(4), 1) == Some(1int) {
        match (parameter(text.skip(4), 2), parameter(text.skip(4), 3)) {
            (Some(width), Some(height)) => Some((width, height)),
            _ => None,
        }
    } else {
        None
    }
}

/// A number among parameters is read, and so are those after it.
proof fn lemma_parameter(n: nat, rest: Seq<u8>, k: nat)
    requires
        rest.len() > 0,
        !bytes::is_digit(rest[0]),
    ensures
        parameter(bytes::decimal(n) + rest, 0) == Some(n as int),
        k > 0 ==> parameter(bytes::decimal(n) + rest, k) == if rest[0] == SEMICOLON {
            parameter(rest.skip(1), (k - 1) as nat)
        } else {
            None
        },
{
    let digits = bytes::decimal(n);
    let text = digits + rest;
    let end = digits.len() as int;
    bytes::lemma_decimal(n);
    bytes::lemma_decimal_last(n);
    assert forall|i: int| 0 <= i < end implies bytes::is_digit(#[trigger] text[i]) by {
        assert(text[i] == digits[i]);
    }
    assert(text[end] == rest[0]);
    bytes::lemma_digits_end_is(text, 0, end);
    assert(text.take(end) =~= digits);
    assert(text.skip(end + 1) =~= rest.skip(1));
}

/// Two numbers with a semicolon between them.
proof fn lemma_parameter_next(n: nat, rest: Seq<u8>, k: nat)
    requires
        k > 0,
    ensures
        parameter(bytes::decimal(n) + (seq![SEMICOLON] + rest), 0) == Some(n as int),
        parameter(bytes::decimal(n) + (seq![SEMICOLON] + rest), k) == parameter(
            rest,
            (k - 1) as nat,
        ),
{
    lemma_parameter(n, seq![SEMICOLON] + rest, k);
    assert((seq![SEMICOLON] + rest).skip(1) =~= rest);
}

/// A definition is read as it was written.
proof fn lemma_definition_is_read(c: nat, red: nat, green: nat, blue: nat, rest: Seq<u8>)
    requires
        goes_on(rest),
    ensures
        ({
            let list = bytes::decimal(c) + color_parameters(red, green, blue) + rest;
            &&& parameter(list, 0) == Some(c as int)
            &&& parameter(list, 1) == Some(2int)
            &&& parameter(list, 2) == Some(red as int)
            &&& parameter(list, 3) == Some(green as int)
            &&& parameter(list, 4) == Some(blue as int)
        }),
{
    reveal_strlit(";2;");
    reveal_strlit(";");
    vstd::utf8::is_ascii_chars_encode_utf8(";2;"@);
    vstd::utf8::is_ascii_chars_encode_utf8(";"@);
    let s = seq![SEMICOLON];
    let (r, g, b) = (bytes::decimal(red), bytes::decimal(green), bytes::decimal(blue));
    assert(bytes::decimal(2) =~= seq![0x32u8]);
    let tail4 = b + rest;
    let tail3 = g + (s + tail4);
    let tail2 = r + (s + tail3);
    let tail1 = bytes::decimal(2) + (s + tail2);
    let list = bytes::decimal(c) + (s + tail1);
    assert(bytes::text(";2;") =~= s + bytes::decimal(2) + s);
    assert(bytes::text(";") =~= s);
    assert(bytes::decimal(c) + color_parameters(red, green, blue) + rest =~= list);
    lemma_parameter_next(c, tail1, 1);
    lemma_parameter_next(c, tail1, 2);
    lemma_parameter_next(c, tail1, 3);
    lemma_parameter_next(c, tail1, 4);
    lemma_parameter_next(2, tail2, 1);
    lemma_parameter_next(2, tail2, 2);
    lemma_parameter_next(2, tail2, 3);
    lemma_parameter_next(red, tail3, 1);
    lemma_parameter_next(red, tail3, 2);
    lemma_parameter_next(green, tail4, 1);
    lemma_parameter(blue, rest, 0);
}

/// The percentages of a palette entry.
spec fn entry_percentages(c: int) -> (int, int, int) {
    let (red, green, blue) = sixel::entry_color(c as u8);
    (
        sixel::percentage(red) as int,
        sixel::percentage(green) as int,
        sixel::percentage(blue) as int,
    )
}

/// A definition gives its register a color, unless a later one does.
proof fn lemma_one_definition(n: nat, red: nat, green: nat, blue: nat, rest: Seq<u8>, c: int)
    requires
        goes_on(rest),
    ensures
        ({
            let text = seq![HASH] + (bytes::decimal(n) + color_parameters(red, green, blue)) + rest;
            &&& goes_on(text)
            &&& defined_color(text, c) == if defined_color(rest, c) is Some {
                defined_color(rest, c)
            } else if c == n {
                Some((red as int, green as int, blue as int))
            } else {
                None
            }
        }),
{
    let color = color_parameters(red, green, blue);
    let register = bytes::decimal(n);
    let text = seq![HASH] + (register + color) + rest;
    lemma_color_parameters(red, green, blue);
    lemma_decimal_is_parameters(n);
    lemma_parameters_joined(register, color);
    lemma_command(HASH, register + color, rest);
    lemma_definition_is_read(n, red, green, blue, rest);
    assert(text.skip(1) =~= register + color + rest);
    assert(text[0] == HASH);
}

/// One more color goes to the end of the palette.
proof fn lemma_palette_next(image: Raster, n: nat, rest: Seq<u8>)
    requires
        n > 0,
        sixel::uses_color(image, n - 1),
    ensures
        ({
            let (red, green, blue) = entry_percentages(n - 1);
            sixel::palette_text(image, n) + rest == sixel::palette_text(image, (n - 1) as nat) + (
            seq![HASH] + (bytes::decimal((n - 1) as nat) + color_parameters(
                red as nat,
                green as nat,
                blue as nat,
            )) + rest)
        }),
{
    let (red, green, blue) = entry_percentages(n - 1);
    let color = color_parameters(red as nat, green as nat, blue as nat);
    let register = bytes::decimal((n - 1) as nat);
    let before = sixel::palette_text(image, (n - 1) as nat);
    lemma_hash();
    assert(sixel::palette_text(image, n) == before + (seq![HASH] + (register + color))) by {
        broadcast use bytes::group_append;

    }
    bytes::lemma_append_parts(before, seq![HASH] + (register + color), rest);
}

/// The palette defines the colors that the image uses.
proof fn lemma_palette_is_defined(image: Raster, n: nat, rest: Seq<u8>, c: int)
    requires
        goes_on(rest),
    ensures
        defined_color(sixel::palette_text(image, n) + rest, c) == if defined_color(
            rest,
            c,
        ) is Some {
            defined_color(rest, c)
        } else if 0 <= c < n && sixel::uses_color(image, c) {
            Some(entry_percentages(c))
        } else {
            None
        },
    decreases n,
{
    if n == 0 {
        assert(sixel::palette_text(image, 0) + rest =~= rest);
    } else if sixel::uses_color(image, n - 1) {
        let m = (n - 1) as nat;
        let (red, green, blue) = entry_percentages(n - 1);
        let text = seq![HASH] + (bytes::decimal(m) + color_parameters(
            red as nat,
            green as nat,
            blue as nat,
        )) + rest;
        lemma_one_definition(m, red as nat, green as nat, blue as nat, rest, c);
        lemma_palette_next(image, n, rest);
        lemma_palette_is_defined(image, m, text, c);
    } else {
        lemma_palette_is_defined(image, (n - 1) as nat, rest, c);
    }
}

/// The choice of a register defines no color.
proof fn lemma_choice_defines_nothing(n: nat, rest: Seq<u8>, c: int)
    requires
        goes_on(rest),
    ensures
        defined_color(seq![HASH] + bytes::decimal(n) + rest, c) is None,
{
    let text = seq![HASH] + bytes::decimal(n) + rest;
    lemma_parameter(n, rest, 1);
    assert(text.skip(1) =~= bytes::decimal(n) + rest);
    assert(text[0] == HASH);
}

/// Strips start with the choice of a register and go on with its sixels.
proof fn lemma_strips_choose(image: Raster, top: int, n: nat) -> (start: (nat, Seq<u8>))
    requires
        image.width > 0,
        sixel::strips_text(image, top, n).len() > 0,
    ensures
        sixel::strips_text(image, top, n) == seq![HASH] + bytes::decimal(start.0) + start.1,
        start.1.len() > 1,
        goes_on(start.1),
    decreases n,
{
    let before = sixel::strips_text(image, top, (n - 1) as nat);
    if before.len() > 0 {
        let start = lemma_strips_choose(image, top, (n - 1) as nat);
        let more = sixel::strips_text(image, top, n).skip(before.len() as int);
        assert(before =~= sixel::strips_text(image, top, n).take(before.len() as int));
        let rest = start.1 + more;
        assert(rest[0] == start.1[0]);
        assert(sixel::strips_text(image, top, n) =~= seq![HASH] + bytes::decimal(start.0) + rest);
        (start.0, rest)
    } else {
        let s = sixel::strip(image, top, n - 1);
        let rest = sixel::coded(s) + seq![sixel::DOLLAR];
        lemma_hash();
        lemma_strip_is_sixels(image, top, n - 1);
        lemma_strip_goes_on(s, seq![sixel::DOLLAR]);
        lemma_coded_is_not_empty(s);
        assert(sixel::strips_text(image, top, n) =~= seq![HASH] + bytes::decimal((n - 1) as nat)
            + rest);
        ((n - 1) as nat, rest)
    }
}

proof fn lemma_coded_is_not_empty(s: Seq<u8>)
    requires
        s.len() > 0,
    ensures
        sixel::coded(s).len() > 0,
{
    sixel::lemma_last_run(s);
    assert(sixel::run_text(sixel::last_run(s), s.last()).len() > 0);
}

/// Bands define no color.
proof fn lemma_bands_define_nothing(image: Raster, n: nat, rest: Seq<u8>, c: int)
    requires
        image.width > 0,
        n > 0,
        rest.len() > 0,
        rest[0] == ESCAPE || rest[0] == sixel::HYPHEN,
    ensures
        defined_color(sixel::bands_text(image, n) + rest, c) is None,
    decreases n,
{
    if n == 1 {
        let strips = sixel::strips_text(image, 0, 256);
        let band = sixel::band_text(image, 0);
        if strips.len() == 0 {
            assert(band + rest =~= rest);
        } else {
            let (color, tail) = lemma_strips_choose(image, 0, 256);
            let more = tail.drop_last() + rest;
            assert(more[0] == tail[0]);
            assert(band + rest =~= seq![HASH] + bytes::decimal(color) + more);
            lemma_choice_defines_nothing(color, more, c);
        }
    } else {
        let next = seq![sixel::HYPHEN] + (sixel::band_text(image, 6 * (n - 1)) + rest);
        assert(next[0] == sixel::HYPHEN);
        lemma_bands_define_nothing(image, (n - 1) as nat, next, c);
        assert(sixel::bands_text(image, n) + rest =~= sixel::bands_text(image, (n - 1) as nat)
            + next);
    }
}

/// The parameters at the head of an image.
spec fn head_parameters(image: Raster) -> Seq<u8> {
    seq![0x31u8, SEMICOLON, 0x31, SEMICOLON] + bytes::decimal(image.width as nat) + seq![SEMICOLON]
        + bytes::decimal(image.height as nat)
}

/// The head of an image as a command.
proof fn lemma_head_is_command(image: Raster, rest: Seq<u8>)
    ensures
        bytes::text("\x1bPq").is_prefix_of(sixel_head(image) + rest),
        (sixel_head(image) + rest).skip(3) == seq![QUOTE] + head_parameters(image) + rest,
        (sixel_head(image) + rest).skip(4) == head_parameters(image) + rest,
        (sixel_head(image) + rest).len() > 4,
        (sixel_head(image) + rest)[3] == QUOTE,
        all_parameters(head_parameters(image)),
{
    reveal_strlit("\x1bPq\"1;1;");
    reveal_strlit("\x1bPq");
    reveal_strlit(";");
    vstd::utf8::is_ascii_chars_encode_utf8("\x1bPq\"1;1;"@);
    vstd::utf8::is_ascii_chars_encode_utf8("\x1bPq"@);
    vstd::utf8::is_ascii_chars_encode_utf8(";"@);
    let lead = seq![ESCAPE, 0x50, 0x71];
    let ratio = seq![0x31u8, SEMICOLON, 0x31, SEMICOLON];
    let s = seq![SEMICOLON];
    let (w, h) = (bytes::decimal(image.width as nat), bytes::decimal(image.height as nat));
    assert(bytes::text("\x1bPq") =~= lead);
    assert(bytes::text("\x1bPq\"1;1;") =~= lead + seq![QUOTE] + ratio);
    assert(bytes::text(";") =~= s);
    let text = sixel_head(image) + rest;
    assert(text =~= lead + (seq![QUOTE] + head_parameters(image) + rest));
    assert(text.skip(3) =~= seq![QUOTE] + head_parameters(image) + rest);
    assert(text.skip(4) =~= head_parameters(image) + rest);
    assert(lead =~= text.subrange(0, 3));
    lemma_decimal_is_parameters(image.width as nat);
    lemma_decimal_is_parameters(image.height as nat);
    lemma_parameters_joined(ratio, w);
    lemma_parameters_joined(ratio + w, s);
    lemma_parameters_joined(ratio + w + s, h);
}

/// The parameters at the head of an image are read one by one.
proof fn lemma_head_parameters(image: Raster, rest: Seq<u8>)
    requires
        goes_on(rest),
    ensures
        parameter(head_parameters(image) + rest, 0) == Some(1int),
        parameter(head_parameters(image) + rest, 1) == Some(1int),
        parameter(head_parameters(image) + rest, 2) == Some(image.width as int),
        parameter(head_parameters(image) + rest, 3) == Some(image.height as int),
{
    let s = seq![SEMICOLON];
    let (w, h) = (bytes::decimal(image.width as nat), bytes::decimal(image.height as nat));
    assert(bytes::decimal(1) =~= seq![0x31u8]);
    let tail2 = w + (s + (h + rest));
    let tail1 = bytes::decimal(1) + (s + tail2);
    let list = bytes::decimal(1) + (s + tail1);
    assert(head_parameters(image) + rest =~= list);
    lemma_parameter_next(1, tail1, 1);
    lemma_parameter_next(1, tail1, 2);
    lemma_parameter_next(1, tail1, 3);
    lemma_parameter_next(1, tail2, 1);
    lemma_parameter_next(1, tail2, 2);
    lemma_parameter_next(image.width as nat, h + rest, 1);
    lemma_parameter(image.height as nat, rest, 0);
}

/// The head of an image tells its size and defines no color.
proof fn lemma_head_tells_size(image: Raster, rest: Seq<u8>, c: int)
    requires
        goes_on(rest),
    ensures
        told_size(sixel_head(image) + rest) == Some((image.width as int, image.height as int)),
        shown_color(sixel_head(image) + rest, c) == defined_color(rest, c),
{
    let command = seq![QUOTE] + head_parameters(image) + rest;
    lemma_head_is_command(image, rest);
    lemma_head_parameters(image, rest);
    lemma_command(QUOTE, head_parameters(image), rest);
    assert(command[0] == QUOTE);
}

/// A terminal that reads sixel graphics knows the size of the image from their start, and it has
/// in the register of each palette entry that the image uses the red, green and blue of that
/// entry in percent, and in no other register a color.
pub proof fn law_terminals_know_the_colors(image: Raster, c: int)
    requires
        image.width > 0,
        image.height > 0,
    ensures
        told_size(sixel::sixel_text(image)) == Some((image.width as int, image.height as int)),
        shown_color(sixel::sixel_text(image), c) is Some <==> 0 <= c < 256 && sixel::uses_color(
            image,
            c,
        ),
        shown_color(sixel::sixel_text(image), c) matches Some((red, green, blue)) ==> {
            let (r, g, b) = sixel::entry_color(c as u8);
            &&& red == sixel::percentage(r)
            &&& green == sixel::percentage(g)
            &&& blue == sixel::percentage(b)
        },
{
    reveal_strlit("\x1b\\");
    vstd::utf8::is_ascii_chars_encode_utf8("\x1b\\"@);
    let end = bytes::text("\x1b\\");
    assert(end.len() == 2 && end[0] == ESCAPE);
    let n = sixel::band_count(image.height);
    let bands = sixel::bands_text(image, n) + end;
    let palette = sixel::palette_text(image, 256);
    lemma_bands_go_on(image, n, end);
    lemma_bands_define_nothing(image, n, end, c);
    lemma_palette_is_defined(image, 256, bands, c);
    let start = Pen { register: 0, x: 0, top: 0 };
    let after = lemma_paint_palette(image, 256, bands, start, 0, 0, 0);
    lemma_head_tells_size(image, palette + bands, c);
    assert(sixel::sixel_text(image) =~= sixel_head(image) + (palette + bands));
}

/// What a terminal shows of sixel graphics is the image. The pixel in column `x` of row `y` is
/// painted exactly where it stands in the image and is at least half opaque, with one register,
/// and in a color within a step of the palette of its own red, green and blue.
pub proof fn law_terminals_show_the_pixels(image: Raster, x: int, y: int)
    requires
        image.wf(),
        image.width > 0,
        image.height > 0,
    ensures
        ({
            let text = sixel::sixel_text(image);
            let at = 4 * (y * image.width + x);
            let inside = 0 <= x < image.width && 0 <= y < image.height;
            &&& (exists|c: int| #[trigger] shows(text, x, y, c)) <==> inside && image.rgba[at + 3]
                >= 128
            &&& forall|c: int, d: int|
                #[trigger] shows(text, x, y, c) && #[trigger] shows(text, x, y, d) ==> c == d
            &&& forall|c: int| #[trigger]
                shows(text, x, y, c) ==> {
                    &&& shown_color(text, c) matches Some((red, green, blue))
                    &&& -3300 < 255 * red - 100 * image.rgba[at] < 3300
                    &&& -3300 < 255 * green - 100 * image.rgba[at + 1] < 3300
                    &&& -6500 < 255 * blue - 100 * image.rgba[at + 2] < 6500
                }
        }),
{
    let text = sixel::sixel_text(image);
    let at = 4 * (y * image.width + x);
    let entry = sixel::palette_entry(image.rgba[at], image.rgba[at + 1], image.rgba[at + 2]);
    assert forall|c: int| #[trigger] shows(text, x, y, c) implies {
        &&& sixel::has_color(image, x, y, c)
        &&& c == entry
        &&& shown_color(text, c) matches Some((red, green, blue))
        &&& -3300 < 255 * red - 100 * image.rgba[at] < 3300
        &&& -3300 < 255 * green - 100 * image.rgba[at + 1] < 3300
        &&& -6500 < 255 * blue - 100 * image.rgba[at + 2] < 6500
    } by {
        law_terminals_show_the_image(image, x, y, c);
        law_terminals_know_the_colors(image, c);
        sixel::law_drawn_pixels(image, x, y, c as u8);
        sixel::law_palette_is_close(image.rgba[at], image.rgba[at + 1], image.rgba[at + 2]);
        let (r, g, b) = sixel::entry_color(c as u8);
        sixel::law_percentages_are_nearest(r, 0);
        sixel::law_percentages_are_nearest(g, 0);
        sixel::law_percentages_are_nearest(b, 0);
    }
    if 0 <= x < image.width && 0 <= y < image.height && image.rgba[at + 3] >= 128 {
        sixel::law_drawn_pixels(image, x, y, entry);
        law_terminals_show_the_image(image, x, y, entry as int);
        assert(shows(text, x, y, entry as int));
    }
    assert forall|c: int| #[trigger] shows(text, x, y, c) implies 0 <= x < image.width && 0 <= y
        < image.height && image.rgba[at + 3] >= 128 by {
        sixel::law_drawn_pixels(image, x, y, entry);
    }
}

/// What is written of an image file within the limits of the settings paints its pixels: the pixel
/// in column `x` of row `y` exactly where it stands in the image and is at least half opaque, in
/// a color within a step of the palette of its own.
pub proof fn law_files_are_painted(
    decoded: Seq<u8>,
    config: Config,
    sixels: Seq<u8>,
    source: Raster,
    x: int,
    y: int,
)
    requires
        sixel::is_sixel_of(decoded, config, sixels),
        sixel::source_image(decoded, config) == Ok::<Raster, DecodeError>(source),
        source.width > 0,
        source.height > 0,
        config.max_pixels_w matches Some(limit) ==> source.width <= limit,
        config.max_pixels_h matches Some(limit) ==> source.height <= limit,
    ensures
        told_size(sixels) == Some((source.width as int, source.height as int)),
        ({
            let at = 4 * (y * source.width + x);
            let inside = 0 <= x < source.width && 0 <= y < source.height;
            &&& (exists|c: int| #[trigger] shows(sixels, x, y, c)) <==> inside && source.rgba[at
                + 3] >= 128
            &&& forall|c: int| #[trigger]
                shows(sixels, x, y, c) ==> {
                    &&& shown_color(sixels, c) matches Some((red, green, blue))
                    &&& -3300 < 255 * red - 100 * source.rgba[at] < 3300
                    &&& -3300 < 255 * green - 100 * source.rgba[at + 1] < 3300
                    &&& -6500 < 255 * blue - 100 * source.rgba[at + 2] < 6500
                }
        }),
{
    sixel::law_images_can_be_shown(decoded, config, source);
    let image = choose|image: Raster| #[trigger]
        sixel::is_shown_as(source, config, image) && image.wf() && sixels == sixel::sixel_text(
            image,
        );
    assert(image == source);
    law_terminals_show_the_pixels(source, x, y);
    law_terminals_know_the_colors(source, 0);
}

/// What a terminal reads of a run is as many of the same sixel.
pub proof fn law_runs_are_read_back(n: nat, sixel: u8)
    requires
        sixel >= 63,
    ensures
        expanded(sixel::run_text(n, sixel)) == Seq::new(n, |i: int| sixel),
{
    lemma_run_is_read_back(n, sixel, Seq::empty());
    assert(sixel::run_text(n, sixel) + Seq::empty() =~= sixel::run_text(n, sixel));
    assert(Seq::new(n, |i: int| sixel) + expanded(Seq::empty()) =~= Seq::new(n, |i: int| sixel));
}

} // verus!
