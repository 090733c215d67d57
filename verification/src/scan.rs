//! Finding images in a line of text.
//!
//! psql prints a `bytea` value as `\x` and two hex digits for each byte. A token is
//! such a value; it is kept where its bytes start like a PNG or a GIF file.

use vstd::prelude::*;

use crate::bytes::starts_with;

verus! {

pub const PNG_MAGIC: [u8; 8] = [0x89, 0x50, 0x4e, 0x47, 0x0d, 0x0a, 0x1a, 0x0a];

pub const GIF87A_MAGIC: [u8; 6] = [0x47, 0x49, 0x46, 0x38, 0x37, 0x61];

pub const GIF89A_MAGIC: [u8; 6] = [0x47, 0x49, 0x46, 0x38, 0x39, 0x61];

pub const BACKSLASH: u8 = 0x5c;

pub const LOWER_X: u8 = 0x78;

/// An image found in a line: the line's bytes `start..end` spell it, and `decoded` is
/// what they spell.
#[derive(Clone, Debug, Eq, PartialEq)]
pub struct Token {
    pub start: usize,
    pub end: usize,
    pub decoded: Vec<u8>,
}

/// What a [`Token`] says, over mathematical values.
pub ghost struct TokenSpan {
    pub start: int,
    pub end: int,
    pub decoded: Seq<u8>,
}

impl View for Token {
    type V = TokenSpan;

    open spec fn view(&self) -> TokenSpan {
        TokenSpan { start: self.start as int, end: self.end as int, decoded: self.decoded@ }
    }
}

/// Why a line cannot be scanned.
#[derive(Clone, Copy, Debug, Eq, PartialEq)]
pub enum ScanError {
    TokenTooLarge,
}

/// `bytes` is the start of a PNG file.
pub open spec fn is_png(bytes: Seq<u8>) -> bool {
    PNG_MAGIC@.is_prefix_of(bytes)
}

/// `bytes` is the start of a GIF file of either version.
pub open spec fn is_gif(bytes: Seq<u8>) -> bool {
    GIF87A_MAGIC@.is_prefix_of(bytes) || GIF89A_MAGIC@.is_prefix_of(bytes)
}

/// `bytes` is the start of a PNG or a GIF file.
pub open spec fn is_image(bytes: Seq<u8>) -> bool {
    is_png(bytes) || is_gif(bytes)
}

/// `b` is an ASCII hex digit of either case.
pub open spec fn is_hex_digit(b: u8) -> bool {
    0x30 <= b <= 0x39 || 0x61 <= b <= 0x66 || 0x41 <= b <= 0x46
}

/// The value of the hex digit `b`.
pub open spec fn hex_digit(b: u8) -> int {
    if b <= 0x39 {
        b - 0x30
    } else if b >= 0x61 {
        b - 0x61 + 10
    } else {
        b - 0x41 + 10
    }
}

/// Every byte of `hex` is a hex digit.
pub open spec fn all_hex(hex: Seq<u8>) -> bool {
    forall|i: int| 0 <= i < hex.len() ==> is_hex_digit(#[trigger] hex[i])
}

/// The bytes that pairs of hex digits spell.
pub open spec fn unhex(hex: Seq<u8>) -> Seq<u8> {
    Seq::new(hex.len() / 2, |i: int| (hex_digit(hex[2 * i]) * 16 + hex_digit(hex[2 * i + 1])) as u8)
}

/// `hex` spells whole bytes, and they are an image.
pub open spec fn spells_image(hex: Seq<u8>) -> bool {
    all_hex(hex) && hex.len() % 2 == 0 && is_image(unhex(hex))
}

/// `\x` and a hex digit stand at `at`.
pub open spec fn opens_token(line: Seq<u8>, at: int) -> bool {
    &&& 0 <= at
    &&& at + 3 <= line.len()
    &&& line[at] == BACKSLASH
    &&& line[at + 1] == LOWER_X
    &&& is_hex_digit(line[at + 2])
}

/// The first position from `from` on that holds no hex digit.
pub open spec fn hex_end(line: Seq<u8>, from: int) -> int
    decreases line.len() - from,
{
    if 0 <= from < line.len() && is_hex_digit(line[from]) {
        hex_end(line, from + 1)
    } else {
        from
    }
}

/// The token that opens at `at`: `\x` and all the hex digits after it.
pub open spec fn span_at(line: Seq<u8>, at: int) -> TokenSpan {
    let end = hex_end(line, at + 2);
    TokenSpan { start: at, end, decoded: unhex(line.subrange(at + 2, end)) }
}

/// A token opens at `at` and spells an image.
pub open spec fn image_at(line: Seq<u8>, at: int) -> bool {
    opens_token(line, at) && spells_image(line.subrange(at + 2, hex_end(line, at + 2)))
}

/// The images that open in `line` at `from` or later, in the order of the line.
pub open spec fn images_from(line: Seq<u8>, from: int) -> Seq<TokenSpan>
    decreases line.len() - from,
{
    if from >= line.len() {
        Seq::empty()
    } else if image_at(line, from) {
        seq![span_at(line, from)] + images_from(line, from + 1)
    } else {
        images_from(line, from + 1)
    }
}

/// The images of `line`, in the order of the line.
pub open spec fn images_in(line: Seq<u8>) -> Seq<TokenSpan> {
    images_from(line, 0)
}

/// A token of more than `max` bytes opens at `at`, whether or not it spells an image.
pub open spec fn oversized_at(line: Seq<u8>, max: int, at: int) -> bool {
    opens_token(line, at) && hex_end(line, at + 2) - at > max
}

/// Some token of `line` is longer than `max` bytes.
pub open spec fn has_oversized_token(line: Seq<u8>, max: int) -> bool {
    exists|at: int| oversized_at(line, max, at)
}

/// The spans of executable tokens.
pub open spec fn spans(tokens: Seq<Token>) -> Seq<TokenSpan> {
    tokens.map_values(|t: Token| t@)
}

proof fn lemma_hex_end(line: Seq<u8>, from: int)
    requires
        0 <= from <= line.len(),
    ensures
        from <= hex_end(line, from) <= line.len(),
        forall|i: int| from <= i < hex_end(line, from) ==> is_hex_digit(#[trigger] line[i]),
        hex_end(line, from) < line.len() ==> !is_hex_digit(line[hex_end(line, from)]),
    decreases line.len() - from,
{
    if from < line.len() && is_hex_digit(line[from]) {
        lemma_hex_end(line, from + 1);
    }
}

/// Where nothing opens between `from` and `to`, the images from either are the same.
proof fn lemma_images_skip(line: Seq<u8>, from: int, to: int)
    requires
        0 <= from <= to <= line.len(),
        forall|i: int| from <= i < to ==> !opens_token(line, i),
    ensures
        images_from(line, from) == images_from(line, to),
    decreases to - from,
{
    if from < to {
        assert(!opens_token(line, from));
        lemma_images_skip(line, from + 1, to);
    }
}

/// Nothing opens inside a token: a backslash is no hex digit.
proof fn lemma_nothing_opens_inside(line: Seq<u8>, at: int)
    requires
        opens_token(line, at),
    ensures
        forall|i: int| at < i < hex_end(line, at + 2) ==> !opens_token(line, i),
{
    lemma_hex_end(line, at + 2);
    assert forall|i: int| at < i < hex_end(line, at + 2) implies !opens_token(line, i) by {
        if i >= at + 2 {
            assert(is_hex_digit(line[i]));
        }
    }
}

/// The images of `line` with a token of at most `max_token_bytes` bytes each.
///
/// One longer token, image or not, makes the whole line [`ScanError::TokenTooLarge`].
pub fn image_tokens(line: &[u8], max_token_bytes: usize) -> (r: Result<Vec<Token>, ScanError>)
    ensures
        r is Err <==> has_oversized_token(line@, max_token_bytes as int),
        r matches Ok(tokens) ==> spans(tokens@) == images_in(line@),
{
    let mut tokens: Vec<Token> = Vec::new();
    let mut index: usize = 0;
    assert(spans(tokens@) =~= Seq::empty());
    while index < line.len() && line.len() - index >= 3
        invariant
            index <= line@.len(),
            images_in(line@) == spans(tokens@) + images_from(line@, index as int),
            forall|at: int| at < index ==> !oversized_at(line@, max_token_bytes as int, at),
        decreases line@.len() - index,
    {
        if line[index] != BACKSLASH || line[index + 1] != LOWER_X || !is_hex(line[index + 2]) {
            assert(!opens_token(line@, index as int));
            index += 1;
            continue;
        }
        assert(opens_token(line@, index as int));
        let start: usize = index;
        let mut end: usize = index + 2;
        while end < line.len() && is_hex(line[end])
            invariant
                start + 2 <= end <= line@.len(),
                hex_end(line@, start + 2) == hex_end(line@, end as int),
            decreases line@.len() - end,
        {
            end += 1;
        }
        assert(hex_end(line@, start + 2) == end);
        proof {
            lemma_hex_end(line@, start + 2);
            lemma_nothing_opens_inside(line@, start as int);
            lemma_images_skip(line@, start + 1, end as int);
        }
        if end - start > max_token_bytes {
            assert(oversized_at(line@, max_token_bytes as int, start as int));
            return Err(ScanError::TokenTooLarge);
        }
        let ghost before = tokens@;
        if let Some(decoded) = decode_hex_image_prefix(
            vstd::slice::slice_subrange(line, start + 2, end),
        ) {
            tokens.push(Token { start, end, decoded });
            assert(spans(tokens@) =~= spans(before).push(span_at(line@, start as int)));
            assert(spans(tokens@) + images_from(line@, end as int) =~= spans(before) + (seq![
                span_at(line@, start as int),
            ] + images_from(line@, end as int)));
        }
        index = end;
    }
    proof {
        assert forall|i: int| index <= i < line@.len() implies !opens_token(line@, i) by {}
        lemma_images_skip(line@, index as int, line@.len() as int);
        assert(spans(tokens@) + images_from(line@, line@.len() as int) =~= spans(tokens@));
    }
    Ok(tokens)
}

/// The bytes that `hex` spells, where they are an image.
pub fn decode_hex_image_prefix(hex: &[u8]) -> (r: Option<Vec<u8>>)
    ensures
        r is Some <==> spells_image(hex@),
        r matches Some(decoded) ==> decoded@ == unhex(hex@),
{
    if hex.len() / 2 < shortest_magic_len() || hex.len() % 2 != 0 {
        return None;
    }
    let mut decoded: Vec<u8> = Vec::with_capacity(hex.len() / 2);
    let mut i: usize = 0;
    while i < hex.len()
        invariant
            i <= hex@.len(),
            i % 2 == 0,
            hex@.len() % 2 == 0,
            forall|j: int| 0 <= j < i ==> is_hex_digit(#[trigger] hex@[j]),
            decoded@.len() == i / 2,
            forall|j: int| 0 <= j < i / 2 ==> decoded@[j] == unhex(hex@)[j],
        decreases hex@.len() - i,
    {
        let high: u8 = match hex_value(hex[i]) {
            Some(value) => value,
            None => return None,
        };
        let low: u8 = match hex_value(hex[i + 1]) {
            Some(value) => value,
            None => return None,
        };
        decoded.push(high * 16 + low);
        i += 2;
    }
    assert(decoded@ =~= unhex(hex@));
    if is_supported_image(decoded.as_slice()) {
        Some(decoded)
    } else {
        None
    }
}

/// Whether `decoded` starts like a PNG or a GIF file.
pub fn is_supported_image(decoded: &[u8]) -> (r: bool)
    ensures
        r == is_image(decoded@),
{
    starts_with(decoded, &PNG_MAGIC) || is_gif_file(decoded)
}

/// Whether `decoded` starts like a GIF file of either version.
pub fn is_gif_file(decoded: &[u8]) -> (r: bool)
    ensures
        r == is_gif(decoded@),
{
    starts_with(decoded, &GIF87A_MAGIC) || starts_with(decoded, &GIF89A_MAGIC)
}

/// The length of the shortest magic number: an image has at least as many bytes.
pub fn shortest_magic_len() -> (r: usize)
    ensures
        r == GIF87A_MAGIC@.len(),
        forall|bytes: Seq<u8>| #[trigger] is_image(bytes) ==> r <= bytes.len(),
{
    if PNG_MAGIC.len() < GIF87A_MAGIC.len() {
        PNG_MAGIC.len()
    } else {
        GIF87A_MAGIC.len()
    }
}

/// Whether `byte` is an ASCII hex digit.
pub fn is_hex(byte: u8) -> (r: bool)
    ensures
        r == is_hex_digit(byte),
{
    0x30 <= byte && byte <= 0x39 || 0x61 <= byte && byte <= 0x66 || 0x41 <= byte && byte <= 0x46
}

/// The value of a hex digit.
pub fn hex_value(byte: u8) -> (r: Option<u8>)
    ensures
        r is Some <==> is_hex_digit(byte),
        r matches Some(value) ==> value == hex_digit(byte) && value < 16,
{
    if 0x30 <= byte && byte <= 0x39 {
        Some(byte - 0x30)
    } else if 0x61 <= byte && byte <= 0x66 {
        Some(byte - 0x61 + 10)
    } else if 0x41 <= byte && byte <= 0x46 {
        Some(byte - 0x41 + 10)
    } else {
        None
    }
}

/// Every image that is found is one token of the line: it opens inside the line, it spans
/// all the hex digits that follow, and its bytes are those that the digits spell.
pub proof fn law_images_are_tokens(line: Seq<u8>, from: int, k: int)
    requires
        0 <= from,
        0 <= k < images_from(line, from).len(),
    ensures
        ({
            let span = images_from(line, from)[k];
            &&& from <= span.start
            &&& span.start + 2 < span.end <= line.len()
            &&& image_at(line, span.start)
            &&& span == span_at(line, span.start)
            &&& is_image(span.decoded)
            &&& span.end - span.start == 2 + 2 * span.decoded.len()
            &&& span.end < line.len() ==> !is_hex_digit(line[span.end])
        }),
    decreases line.len() - from,
{
    if image_at(line, from) {
        lemma_hex_end(line, from + 2);
        if k > 0 {
            law_images_are_tokens(line, from + 1, k - 1);
        }
    } else {
        law_images_are_tokens(line, from + 1, k);
    }
}

/// Images stand in the order of the line and do not overlap.
pub proof fn law_images_are_disjoint(line: Seq<u8>, from: int, j: int, k: int)
    requires
        0 <= from,
        0 <= j < k < images_from(line, from).len(),
    ensures
        images_from(line, from)[j].end <= images_from(line, from)[k].start,
    decreases line.len() - from,
{
    if image_at(line, from) {
        if j > 0 {
            law_images_are_disjoint(line, from + 1, j - 1, k - 1);
        } else {
            law_images_are_tokens(line, from + 1, k - 1);
            lemma_nothing_opens_inside(line, from);
        }
    } else {
        law_images_are_disjoint(line, from + 1, j, k);
    }
}

/// No image of the line is missed.
pub proof fn law_every_image_is_found(line: Seq<u8>, from: int, at: int)
    requires
        0 <= from <= at,
        image_at(line, at),
    ensures
        images_from(line, from).contains(span_at(line, at)),
    decreases at - from,
{
    let rest = images_from(line, from + 1);
    if from == at {
        assert((seq![span_at(line, at)] + rest)[0] == span_at(line, at));
    } else {
        law_every_image_is_found(line, from + 1, at);
        let i = choose|i: int| 0 <= i < rest.len() && rest[i] == span_at(line, at);
        if image_at(line, from) {
            assert((seq![span_at(line, from)] + rest)[i + 1] == span_at(line, at));
        }
    }
}

/// A line holds no token that is longer than the line.
pub proof fn law_tokens_fit_their_line(line: Seq<u8>, max: int)
    requires
        line.len() <= max,
    ensures
        !has_oversized_token(line, max),
{
    assert forall|at: int| !oversized_at(line, max, at) by {
        if opens_token(line, at) {
            lemma_hex_end(line, at + 2);
        }
    }
}

/// The lower-case hex digit of `value`.
pub open spec fn to_hex_digit(value: int) -> u8 {
    if value < 10 {
        (0x30 + value) as u8
    } else {
        (0x61 + value - 10) as u8
    }
}

/// How psql prints `bytes`: `\x` and two lower-case hex digits for each byte.
pub open spec fn printed_bytea(bytes: Seq<u8>) -> Seq<u8> {
    seq![BACKSLASH, LOWER_X] + Seq::new(
        2 * bytes.len(),
        |i: int|
            if i % 2 == 0 {
                to_hex_digit(bytes[i / 2] as int / 16)
            } else {
                to_hex_digit(bytes[i / 2] as int % 16)
            },
    )
}

/// An image that psql printed is found again, byte for byte, wherever it stands in a line
/// that holds no other backslash and no hex digit right after the value.
pub proof fn law_printed_image_is_found(before: Seq<u8>, bytes: Seq<u8>, after: Seq<u8>)
    requires
        is_image(bytes),
        !before.contains(BACKSLASH),
        !after.contains(BACKSLASH),
        after.len() > 0 ==> !is_hex_digit(after[0]),
    ensures
        images_in(before + printed_bytea(bytes) + after) == seq![
            TokenSpan {
                start: before.len() as int,
                end: (before.len() + 2 + 2 * bytes.len()) as int,
                decoded: bytes,
            },
        ],
{
    let token = printed_bytea(bytes);
    let line = before + token + after;
    let at = before.len() as int;
    let end = at + token.len();
    assert forall|i: int| at + 2 <= i < end implies is_hex_digit(#[trigger] line[i]) by {
        assert(line[i] == token[i - at]);
    }
    assert(end < line.len() ==> line[end] == after[0]);
    lemma_hex_end_is(line, at + 2, end);
    let hex = line.subrange(at + 2, end);
    assert forall|i: int| 0 <= i < bytes.len() implies #[trigger] unhex(hex)[i] == bytes[i] by {
        assert(hex[2 * i] == token[2 + 2 * i]);
        assert(hex[2 * i + 1] == token[2 + 2 * i + 1]);
        assert((2 * i) / 2 == i && (2 * i + 1) / 2 == i);
    }
    assert(unhex(hex) =~= bytes);
    assert(bytes.len() >= 6);
    assert(line[at] == token[0] && line[at + 1] == token[1]);
    assert(image_at(line, at));
    assert forall|i: int| 0 <= i < at implies !opens_token(line, i) by {
        assert(line[i] == before[i]);
        assert(before.contains(before[i]));
    }
    lemma_images_skip(line, 0, at);
    assert forall|i: int| at < i < line.len() implies !opens_token(line, i) by {
        if i >= end {
            assert(line[i] == after[i - end]);
            assert(after.contains(after[i - end]));
        } else if i >= at + 2 {
            assert(is_hex_digit(line[i]));
        }
    }
    lemma_images_skip(line, at + 1, line.len() as int);
    assert(images_from(line, line.len() as int) =~= Seq::empty());
    assert(seq![span_at(line, at)] + images_from(line, at + 1) =~= seq![span_at(line, at)]);
}

proof fn lemma_hex_end_is(line: Seq<u8>, from: int, end: int)
    requires
        0 <= from <= end <= line.len(),
        forall|i: int| from <= i < end ==> is_hex_digit(#[trigger] line[i]),
        end < line.len() ==> !is_hex_digit(line[end]),
    ensures
        hex_end(line, from) == end,
    decreases end - from,
{
    if from < end {
        assert(is_hex_digit(line[from]));
        lemma_hex_end_is(line, from + 1, end);
    }
}

/// No image stands anywhere in the text.
pub open spec fn is_imageless(text: Seq<u8>) -> bool {
    forall|at: int| !image_at(text, at)
}

/// A token neither goes on over the byte nor goes on with it.
pub open spec fn breaks_token(b: u8) -> bool {
    !is_hex_digit(b) && b != BACKSLASH && b != LOWER_X
}

/// A part of a text that cuts no run of hex digits holds the images that start and open in it.
pub proof fn lemma_image_in_part(text: Seq<u8>, from: int, to: int, at: int)
    requires
        0 <= from <= to <= text.len(),
        0 <= at,
        from + at + 3 <= to,
        to == text.len() || !is_hex_digit(text[to]) || !is_hex_digit(text[to - 1]),
    ensures
        image_at(text.subrange(from, to), at) == image_at(text, from + at),
{
    let part = text.subrange(from, to);
    let end = hex_end(part, at + 2);
    lemma_hex_end(part, at + 2);
    assert forall|i: int| from + at + 2 <= i < from + end implies is_hex_digit(
        #[trigger] text[i],
    ) by {
        assert(is_hex_digit(part[i - from]));
    }
    if from + end < text.len() {
        if end < part.len() {
            assert(!is_hex_digit(part[end]));
        } else if end > at + 2 {
            assert(is_hex_digit(part[end - 1]));
        }
    }
    lemma_hex_end_is(text, from + at + 2, from + end);
    assert(text.subrange(from + at + 2, from + end) =~= part.subrange(at + 2, end));
}

/// Two texts without images have none together, where a byte between them breaks any token.
pub proof fn lemma_imageless_joined(a: Seq<u8>, b: Seq<u8>)
    requires
        is_imageless(a),
        is_imageless(b),
        a.len() == 0 || b.len() == 0 || breaks_token(a.last()) || breaks_token(b[0]),
    ensures
        is_imageless(a + b),
{
    let text = a + b;
    let n = a.len() as int;
    assert(text.subrange(0, n) =~= a);
    assert(text.subrange(n, text.len() as int) =~= b);
    assert forall|at: int| !image_at(text, at) by {
        if image_at(text, at) {
            if at + 3 <= n {
                assert(b.len() > 0 ==> text[n] == b[0]);
                lemma_image_in_part(text, 0, n, at);
            } else if at >= n {
                lemma_image_in_part(text, n, text.len() as int, at - n);
            } else {
                assert(text[n - 1] == a.last());
                assert(text[n] == b[0]);
            }
        }
    }
}

/// A text without a backslash holds no image.
pub proof fn lemma_no_backslash(text: Seq<u8>)
    requires
        !text.contains(BACKSLASH),
    ensures
        is_imageless(text),
{
    assert forall|at: int| !image_at(text, at) by {
        if image_at(text, at) {
            assert(text.contains(text[at]));
        }
    }
}

/// A line in which nothing is found holds no image.
pub proof fn lemma_nothing_found(line: Seq<u8>)
    requires
        images_in(line).len() == 0,
    ensures
        is_imageless(line),
{
    assert forall|at: int| !image_at(line, at) by {
        if image_at(line, at) {
            law_every_image_is_found(line, 0, at);
        }
    }
}

/// An image is a file that starts like a PNG file or like a GIF file of either version.
pub proof fn law_images_start_so(bytes: Seq<u8>)
    ensures
        is_png(bytes) <==> bytes.len() >= 8 && bytes.take(8) == seq![
            0x89u8,
            0x50,
            0x4e,
            0x47,
            0x0d,
            0x0a,
            0x1a,
            0x0a,
        ],
        is_gif(bytes) <==> bytes.len() >= 6 && {
            ||| bytes.take(6) == seq![0x47u8, 0x49, 0x46, 0x38, 0x37, 0x61]
            ||| bytes.take(6) == seq![0x47u8, 0x49, 0x46, 0x38, 0x39, 0x61]
        },
        is_image(bytes) <==> is_png(bytes) || is_gif(bytes),
        !(is_png(bytes) && is_gif(bytes)),
{
    let png = seq![0x89u8, 0x50, 0x4e, 0x47, 0x0d, 0x0a, 0x1a, 0x0a];
    let older = seq![0x47u8, 0x49, 0x46, 0x38, 0x37, 0x61];
    let newer = seq![0x47u8, 0x49, 0x46, 0x38, 0x39, 0x61];
    assert(PNG_MAGIC@ =~= png);
    assert(GIF87A_MAGIC@ =~= older);
    assert(GIF89A_MAGIC@ =~= newer);
    assert(png[0] == 0x89 && older[0] == 0x47 && newer[0] == 0x47);
    if bytes.len() >= 8 {
        assert(bytes.take(8) =~= bytes.subrange(0, 8));
        assert(bytes.take(8)[0] == bytes[0]);
    }
    if bytes.len() >= 6 {
        assert(bytes.take(6) =~= bytes.subrange(0, 6));
        assert(bytes.take(6)[0] == bytes[0]);
    }
}

/// `b` is how the value `value` below 16 is written in hex, in either case.
pub open spec fn is_hex_of(b: u8, value: int) -> bool {
    if value < 10 {
        0 <= value && b == 0x30 + value
    } else {
        value < 16 && (b == 0x61 + (value - 10) || b == 0x41 + (value - 10))
    }
}

/// `hex` is how `bytes` are written in hex: two digits for each, the higher one first.
pub open spec fn spells(hex: Seq<u8>, bytes: Seq<u8>) -> bool {
    &&& hex.len() == 2 * bytes.len()
    &&& forall|i: int|
        0 <= i < bytes.len() ==> is_hex_of(hex[2 * i], (#[trigger] bytes[i]) as int / 16)
            && is_hex_of(hex[2 * i + 1], bytes[i] as int % 16)
}

/// A hex digit is what some value below 16 is written as, and its value is that one.
pub proof fn law_hex_digits_have_values(b: u8, value: int)
    ensures
        is_hex_digit(b) <==> exists|v: int| #[trigger] is_hex_of(b, v),
        is_hex_of(b, value) ==> is_hex_digit(b) && hex_digit(b) == value,
{
    if is_hex_digit(b) {
        assert(is_hex_of(b, hex_digit(b)));
    }
}

/// What hex digits are decoded to is what they spell, and nothing else is decoded.
pub proof fn law_hex_is_decoded(hex: Seq<u8>, bytes: Seq<u8>)
    ensures
        spells(hex, bytes) <==> all_hex(hex) && hex.len() % 2 == 0 && unhex(hex) == bytes,
{
    if spells(hex, bytes) {
        assert forall|i: int| 0 <= i < hex.len() implies is_hex_digit(#[trigger] hex[i]) by {
            let b = bytes[i / 2];
            assert(is_hex_of(hex[2 * (i / 2)], b as int / 16));
            law_hex_digits_have_values(hex[2 * (i / 2)], b as int / 16);
            law_hex_digits_have_values(hex[2 * (i / 2) + 1], b as int % 16);
        }
        assert forall|i: int| 0 <= i < bytes.len() implies unhex(hex)[i] == #[trigger] bytes[i] by {
            law_hex_digits_have_values(hex[2 * i], bytes[i] as int / 16);
            law_hex_digits_have_values(hex[2 * i + 1], bytes[i] as int % 16);
        }
        assert(unhex(hex) =~= bytes);
    }
    if all_hex(hex) && hex.len() % 2 == 0 && unhex(hex) == bytes {
        assert forall|i: int| 0 <= i < bytes.len() implies is_hex_of(
            hex[2 * i],
            (#[trigger] bytes[i]) as int / 16,
        ) && is_hex_of(hex[2 * i + 1], bytes[i] as int % 16) by {
            assert(is_hex_digit(hex[2 * i]) && is_hex_digit(hex[2 * i + 1]));
            assert(unhex(hex)[i] == bytes[i]);
        }
    }
}

/// The images of a line are exactly the values that psql prints for them: a backslash and an
/// `x`, and as many hex digits as stand there, which spell the bytes of a PNG or a GIF file.
pub proof fn law_images_are_printed_values(line: Seq<u8>, image: TokenSpan)
    ensures
        images_in(line).contains(image) <==> {
            &&& 0 <= image.start
            &&& image.start + 2 <= image.end <= line.len()
            &&& line[image.start] == 0x5c
            &&& line[image.start + 1] == 0x78
            &&& spells(line.subrange(image.start + 2, image.end), image.decoded)
            &&& image.end < line.len() ==> forall|v: int|
                !(#[trigger] is_hex_of(line[image.end], v))
            &&& is_image(image.decoded)
        },
{
    let at = image.start;
    if images_in(line).contains(image) {
        let k = choose|k: int| 0 <= k < images_in(line).len() && images_in(line)[k] == image;
        law_images_are_tokens(line, 0, k);
        lemma_hex_end(line, at + 2);
        law_hex_is_decoded(line.subrange(at + 2, image.end), image.decoded);
        if image.end < line.len() {
            law_hex_digits_have_values(line[image.end], 0);
        }
    }
    if 0 <= at && at + 2 <= image.end <= line.len() && line[at] == 0x5c && line[at + 1] == 0x78
        && spells(line.subrange(at + 2, image.end), image.decoded) && (image.end < line.len()
        ==> forall|v: int| !(#[trigger] is_hex_of(line[image.end], v))) && is_image(image.decoded) {
        let hex = line.subrange(at + 2, image.end);
        law_hex_is_decoded(hex, image.decoded);
        assert forall|i: int| at + 2 <= i < image.end implies is_hex_digit(#[trigger] line[i]) by {
            assert(hex[i - at - 2] == line[i]);
        }
        if image.end < line.len() {
            law_hex_digits_have_values(line[image.end], 0);
        }
        lemma_hex_end_is(line, at + 2, image.end);
        law_images_start_so(image.decoded);
        assert(hex.len() >= 12);
        assert(image_at(line, at));
        law_every_image_is_found(line, 0, at);
    }
}

/// An image stands in the line.
pub open spec fn holds_image(line: Seq<u8>) -> bool {
    exists|image: TokenSpan| images_in(line).contains(image)
}

/// A line is refused exactly where more than `max` bytes of it are `\\x` and hex digits after it,
/// whether or not they spell an image.
pub proof fn law_long_values_are_refused(line: Seq<u8>, max: int)
    ensures
        has_oversized_token(line, max) <==> exists|from: int, to: int| #[trigger]
            is_value(line, from, to) && to - from > max,
{
    if has_oversized_token(line, max) {
        let at = choose|at: int| oversized_at(line, max, at);
        lemma_hex_end(line, at + 2);
        assert(is_value(line, at, hex_end(line, at + 2)));
    }
    if exists|from: int, to: int| #[trigger] is_value(line, from, to) && to - from > max {
        let (from, to) = choose|from: int, to: int| #[trigger]
            is_value(line, from, to) && to - from > max;
        lemma_hex_end_beyond(line, from + 2, to);
        assert(oversized_at(line, max, from));
    }
}

/// The line holds `\\x` at `from`, and then hex digits up to `to`, at least one.
pub open spec fn is_value(line: Seq<u8>, from: int, to: int) -> bool {
    &&& 0 <= from
    &&& from + 3 <= to <= line.len()
    &&& line[from] == 0x5c
    &&& line[from + 1] == 0x78
    &&& forall|i: int| from + 2 <= i < to ==> is_hex_digit(#[trigger] line[i])
}

proof fn lemma_hex_end_beyond(line: Seq<u8>, from: int, to: int)
    requires
        0 <= from <= to <= line.len(),
        forall|i: int| from <= i < to ==> is_hex_digit(#[trigger] line[i]),
    ensures
        to <= hex_end(line, from),
    decreases to - from,
{
    if from < to {
        assert(is_hex_digit(line[from]));
        lemma_hex_end_beyond(line, from + 1, to);
    } else {
        lemma_hex_end(line, from);
    }
}

/// Hex digits spell an image exactly where they spell the bytes of one.
pub proof fn law_images_are_spelled(hex: Seq<u8>)
    ensures
        spells_image(hex) <==> exists|bytes: Seq<u8>| #[trigger] spells(hex, bytes) && is_image(
            bytes,
        ),
{
    law_hex_is_decoded(hex, unhex(hex));
    if exists|bytes: Seq<u8>| #[trigger] spells(hex, bytes) && is_image(bytes) {
        let bytes = choose|bytes: Seq<u8>| #[trigger] spells(hex, bytes) && is_image(bytes);
        law_hex_is_decoded(hex, bytes);
    }
}

} // verus!
