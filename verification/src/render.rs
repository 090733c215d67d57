//! A line of a table with its images.
//!
//! Where an image stood there is a placeholder, and the image itself comes after the line.

use vstd::prelude::*;

use crate::bytes;
use crate::bytes::{extend, push_text};
use crate::config::Config;
use crate::encode;
use crate::image_id::{IdLog, ImageIds};
use crate::payload;
use crate::raster::DecodeError;
use crate::scan;
use crate::scan::{Token, TokenSpan};
use crate::table::Mode;
use crate::term::Protocol;

verus! {

/// The images that are rewritten in a line: none in one of more than `cap` bytes.
pub open spec fn images_of(line: Seq<u8>, cap: int) -> Seq<TokenSpan> {
    if line.len() <= cap {
        scan::images_in(line)
    } else {
        Seq::empty()
    }
}

/// Some image is rewritten in the line.
pub open spec fn has_image(line: Seq<u8>, cap: int) -> bool {
    images_of(line, cap).len() > 0
}

/// What stands in a line in place of an image of `width` bytes. In an aligned table it is
/// as wide as the image was.
pub open spec fn placeholder(mode: Mode, width: int) -> Seq<u8> {
    if mode == Mode::Aligned && width > 5 {
        bytes::text("[img]") + Seq::new((width - 5) as nat, |i: int| bytes::SPACE)
    } else {
        bytes::text("[img]")
    }
}

/// The images stand inside a line of `len` bytes, in order and without overlap.
pub open spec fn are_orderly(images: Seq<TokenSpan>, len: int) -> bool {
    &&& forall|k: int|
        0 <= k < images.len() ==> 0 <= (#[trigger] images[k]).start <= images[k].end <= len
    &&& forall|j: int, k: int|
        0 <= j < k < images.len() ==> (#[trigger] images[j]).end <= (#[trigger] images[k]).start
}

/// The files are not too large to be sent as text, where the protocol sends them so.
pub open spec fn are_sendable(images: Seq<TokenSpan>, protocol: Protocol) -> bool {
    protocol == Protocol::Kitty || protocol == Protocol::ITerm2 ==> forall|k: int|
        0 <= k < images.len() ==> payload::base64_len((#[trigger] images[k]).decoded.len() as int)
            <= usize::MAX
}

/// The position after the first `n` images.
pub open spec fn after_images(images: Seq<TokenSpan>, n: int) -> int {
    if n == 0 {
        0
    } else {
        images[n - 1].end
    }
}

/// The line up to the end of its first `n` images, with placeholders for them.
pub open spec fn held_start(line: Seq<u8>, images: Seq<TokenSpan>, mode: Mode, n: nat) -> Seq<u8>
    decreases n,
{
    if n == 0 {
        Seq::empty()
    } else {
        let image = images[n - 1];
        held_start(line, images, mode, (n - 1) as nat) + line.subrange(
            after_images(images, n - 1),
            image.start,
        ) + placeholder(mode, image.end - image.start)
    }
}

/// The line with placeholders for its images.
pub open spec fn held(line: Seq<u8>, images: Seq<TokenSpan>, mode: Mode) -> Seq<u8> {
    held_start(line, images, mode, images.len()) + line.skip(
        after_images(images, images.len() as int),
    )
}

/// `text` with a newline at its end.
pub open spec fn terminated(text: Seq<u8>) -> Seq<u8> {
    if text.len() > 0 && text.last() == bytes::NEWLINE {
        text
    } else {
        text.push(bytes::NEWLINE)
    }
}

/// How the images of a table are shown.
pub ghost struct Style {
    pub mode: Mode,
    pub protocol: Protocol,
    pub config: Config,
}

/// How many of the first `n` images take an image number.
pub open spec fn draws(images: Seq<TokenSpan>, style: Style, n: nat) -> nat
    decreases n,
{
    if n == 0 {
        0
    } else {
        draws(images, style, (n - 1) as nat) + if encode::takes_id(
            style.protocol,
            images[n - 1].decoded,
            style.config,
        ) {
            1nat
        } else {
            0
        }
    }
}

/// How many image numbers the images of the first `n` lines take.
pub open spec fn draws_before(images: Seq<Seq<TokenSpan>>, style: Style, n: nat) -> nat
    decreases n,
{
    if n == 0 {
        0
    } else {
        draws_before(images, style, (n - 1) as nat) + draws(
            images[n - 1],
            style,
            images[n - 1].len(),
        )
    }
}

/// An image as it was printed in the line; nothing where that is no text.
pub open spec fn token_text(line: Seq<u8>, image: TokenSpan) -> Seq<u8> {
    let token = line.subrange(image.start, image.end);
    if vstd::utf8::valid_utf8(token) {
        token
    } else {
        Seq::empty()
    }
}

/// `written` holds what is written for the first images of a line; `at` image numbers were
/// drawn before the line.
pub open spec fn are_written(
    line: Seq<u8>,
    images: Seq<TokenSpan>,
    style: Style,
    log: IdLog,
    at: int,
    written: Seq<Seq<u8>>,
) -> bool {
    &&& written.len() <= images.len()
    &&& forall|k: int|
        0 <= k < written.len() ==> encode::is_written(
            style.protocol,
            token_text(line, images[k]),
            images[k].decoded,
            style.config,
            log,
            at + draws(images, style, k as nat),
            #[trigger] written[k],
        )
}

/// `head` with the images of a line after it, each with a newline at its end.
pub open spec fn with_images(head: Seq<u8>, written: Seq<Seq<u8>>) -> Seq<u8>
    decreases written.len(),
{
    if written.len() == 0 {
        head
    } else {
        terminated(with_images(head, written.drop_last()) + written.last())
    }
}

/// `text` is what a line becomes: the same where it holds no image, else the line with
/// placeholders and then its images. `at` image numbers were drawn before the line.
pub open spec fn is_rendered(
    line: Seq<u8>,
    images: Seq<TokenSpan>,
    style: Style,
    log: IdLog,
    at: int,
    text: Seq<u8>,
) -> bool {
    if images.len() == 0 {
        text == line
    } else {
        exists|written: Seq<Seq<u8>>|
            {
                &&& written.len() == images.len()
                &&& #[trigger] are_written(line, images, style, log, at, written)
                &&& text == with_images(held(line, images, style.mode), written)
            }
    }
}

/// `rendered` holds what the first lines become, where `images` are those of each line; `at`
/// image numbers were drawn before them.
pub open spec fn are_rendered(
    lines: Seq<Seq<u8>>,
    images: Seq<Seq<TokenSpan>>,
    style: Style,
    log: IdLog,
    at: int,
    rendered: Seq<Seq<u8>>,
) -> bool {
    &&& rendered.len() <= lines.len()
    &&& forall|i: int|
        0 <= i < rendered.len() ==> is_rendered(
            lines[i],
            images[i],
            style,
            log,
            at + draws_before(images, style, i as nat),
            #[trigger] rendered[i],
        )
}

/// What was written stays right when more numbers are drawn.
proof fn lemma_written_extends(
    line: Seq<u8>,
    images: Seq<TokenSpan>,
    style: Style,
    log: IdLog,
    later: IdLog,
    at: int,
    written: Seq<Seq<u8>>,
)
    requires
        are_written(line, images, style, log, at, written),
        log.extends_to(later),
    ensures
        are_written(line, images, style, later, at, written),
{
    assert forall|k: int| 0 <= k < written.len() implies encode::is_written(
        style.protocol,
        token_text(line, images[k]),
        images[k].decoded,
        style.config,
        later,
        at + draws(images, style, k as nat),
        #[trigger] written[k],
    ) by {
        encode::lemma_written_extends(
            style.protocol,
            token_text(line, images[k]),
            images[k].decoded,
            style.config,
            log,
            later,
            at + draws(images, style, k as nat),
            written[k],
        );
    }
}

/// One more image is written.
proof fn lemma_written_next(
    line: Seq<u8>,
    images: Seq<TokenSpan>,
    style: Style,
    log: IdLog,
    later: IdLog,
    at: int,
    written: Seq<Seq<u8>>,
    text: Seq<u8>,
)
    requires
        are_written(line, images, style, log, at, written),
        log.extends_to(later),
        written.len() < images.len(),
        encode::is_written(
            style.protocol,
            token_text(line, images[written.len() as int]),
            images[written.len() as int].decoded,
            style.config,
            later,
            at + draws(images, style, written.len()),
            text,
        ),
    ensures
        are_written(line, images, style, later, at, written.push(text)),
{
    lemma_written_extends(line, images, style, log, later, at, written);
    let more = written.push(text);
    assert forall|k: int| 0 <= k < more.len() implies encode::is_written(
        style.protocol,
        token_text(line, images[k]),
        images[k].decoded,
        style.config,
        later,
        at + draws(images, style, k as nat),
        #[trigger] more[k],
    ) by {
        if k < written.len() {
            assert(more[k] == written[k]);
        }
    }
}

/// What was rendered stays right when more numbers are drawn.
proof fn lemma_rendered_extends(
    lines: Seq<Seq<u8>>,
    images: Seq<Seq<TokenSpan>>,
    style: Style,
    log: IdLog,
    later: IdLog,
    at: int,
    rendered: Seq<Seq<u8>>,
)
    requires
        are_rendered(lines, images, style, log, at, rendered),
        log.extends_to(later),
    ensures
        are_rendered(lines, images, style, later, at, rendered),
{
    assert forall|i: int| 0 <= i < rendered.len() implies is_rendered(
        lines[i],
        images[i],
        style,
        later,
        at + draws_before(images, style, i as nat),
        #[trigger] rendered[i],
    ) by {
        let n = at + draws_before(images, style, i as nat);
        assert(is_rendered(lines[i], images[i], style, log, n, rendered[i]));
        if images[i].len() > 0 {
            let written = choose|written: Seq<Seq<u8>>|
                {
                    &&& written.len() == images[i].len()
                    &&& #[trigger] are_written(lines[i], images[i], style, log, n, written)
                    &&& rendered[i] == with_images(held(lines[i], images[i], style.mode), written)
                };
            lemma_written_extends(lines[i], images[i], style, log, later, n, written);
        }
    }
}

/// Appends the placeholder of an aligned table for an image of `width` bytes.
pub fn write_aligned_placeholder(out: &mut Vec<u8>, width: usize)
    ensures
        final(out)@ == old(out)@ + placeholder(Mode::Aligned, width as int),
{
    push_text(out, "[img]");
    let mut filled: usize = 5;
    assert(Seq::new(0, |i: int| bytes::SPACE) =~= Seq::<u8>::empty());
    assert(out@ =~= old(out)@ + (bytes::text("[img]") + Seq::new(0, |i: int| bytes::SPACE)));
    while filled < width
        invariant
            5 <= filled,
            filled <= width || filled == 5,
            out@ == old(out)@ + (bytes::text("[img]") + Seq::new(
                (filled - 5) as nat,
                |i: int| bytes::SPACE,
            )),
        decreases width - filled,
    {
        out.push(bytes::SPACE);
        filled += 1;
        assert(out@ =~= old(out)@ + (bytes::text("[img]") + Seq::new(
            (filled - 5) as nat,
            |i: int| bytes::SPACE,
        )));
    }
    assert(bytes::text("[img]") + Seq::new(0, |i: int| bytes::SPACE) =~= bytes::text("[img]"));
}

/// Calls `std::str::from_utf8`.
///
/// Trusted: it succeeds exactly where the bytes are valid UTF-8, and the string then has
/// these bytes.
#[verifier::external_body]
fn utf8_text(bytes: &[u8]) -> (r: Option<&str>)
    ensures
        r is Some <==> vstd::utf8::valid_utf8(bytes@),
        r matches Some(s) ==> bytes::text(s) == bytes@,
{
    std::str::from_utf8(bytes).ok()
}

/// A token is ASCII, so it is valid UTF-8.
proof fn lemma_token_is_text(line: Seq<u8>, k: int)
    requires
        0 <= k < scan::images_in(line).len(),
    ensures
        ({
            let image = scan::images_in(line)[k];
            vstd::utf8::valid_utf8(line.subrange(image.start, image.end))
        }),
{
    let image = scan::images_in(line)[k];
    scan::law_images_are_tokens(line, 0, k);
    let token = line.subrange(image.start, image.end);
    let hex = line.subrange(image.start + 2, image.end);
    let chars = Seq::new(token.len(), |i: int| token[i] as char);
    assert forall|i: int| 0 <= i < token.len() implies #[trigger] token[i] < 128 by {
        if i >= 2 {
            assert(hex[i - 2] == token[i]);
            assert(scan::is_hex_digit(hex[i - 2]));
        }
    }
    assert(vstd::utf8::is_ascii_chars(chars));
    vstd::utf8::is_ascii_chars_encode_utf8(chars);
    assert(vstd::utf8::encode_utf8(chars) =~= token);
    vstd::utf8::encode_utf8_valid_utf8(chars);
}

/// The images of a line stand in it in order, and none is too large to be sent.
pub proof fn lemma_images_are_orderly(line: Seq<u8>, protocol: Protocol)
    requires
        line.len() <= usize::MAX,
    ensures
        are_orderly(scan::images_in(line), line.len() as int),
        are_sendable(scan::images_in(line), protocol),
{
    let images = scan::images_in(line);
    assert forall|k: int| 0 <= k < images.len() implies {
        &&& 0 <= (#[trigger] images[k]).start <= images[k].end <= line.len()
        &&& payload::base64_len(images[k].decoded.len() as int) <= usize::MAX
    } by {
        scan::law_images_are_tokens(line, 0, k);
    }
    assert forall|j: int, k: int| 0 <= j < k < images.len() implies (#[trigger] images[j]).end <= (
    #[trigger] images[k]).start by {
        scan::law_images_are_disjoint(line, 0, j, k);
    }
}

/// What stands before a line does not matter for what comes after it.
proof fn lemma_with_images(before: Seq<u8>, head: Seq<u8>, written: Seq<Seq<u8>>)
    requires
        head.len() > 0 || written.len() == 0,
    ensures
        with_images(before + head, written) == before + with_images(head, written),
        head.is_prefix_of(with_images(head, written)),
    decreases written.len(),
{
    if written.len() > 0 {
        lemma_with_images(before, head, written.drop_last());
        let done = with_images(head, written.drop_last()) + written.last();
        assert(done.len() > 0);
        assert(with_images(before + head, written.drop_last()) + written.last() =~= before + done);
        assert(terminated(before + done) =~= before + terminated(done));
        assert forall|i: int| 0 <= i < head.len() implies head[i] == done[i] by {
            assert(head[i] == with_images(head, written.drop_last()).subrange(
                0,
                head.len() as int,
            )[i]);
        }
        assert(head =~= terminated(done).subrange(0, head.len() as int));
    } else {
        assert(head =~= head.subrange(0, head.len() as int));
    }
}

/// A line with a placeholder is not empty.
proof fn lemma_held_is_not_empty(line: Seq<u8>, images: Seq<TokenSpan>, mode: Mode)
    requires
        images.len() > 0,
    ensures
        held(line, images, mode).len() > 0,
{
    lemma_placeholder_len();
}

/// Appends a line with placeholders for its images, and then the images.
#[verifier::spinoff_prover]
pub fn rewrite_line(
    out: &mut Vec<u8>,
    line: &[u8],
    tokens: &[Token],
    mode: Mode,
    protocol: Protocol,
    config: &Config,
    ids: &mut ImageIds,
) -> (r: Result<(), DecodeError>)
    requires
        are_orderly(scan::spans(tokens@), line@.len() as int),
        are_sendable(scan::spans(tokens@), protocol),
    ensures
        r is Ok,
        old(ids)@.extends_to(final(ids)@),
        ({
            let images = scan::spans(tokens@);
            let style = Style { mode, protocol, config: *config };
            let before = old(ids)@.clock.len();
            &&& final(ids)@.clock.len() == before + draws(images, style, images.len())
            &&& exists|written: Seq<Seq<u8>>|
                {
                    &&& written.len() == images.len()
                    &&& #[trigger] are_written(
                        line@,
                        images,
                        style,
                        final(ids)@,
                        before as int,
                        written,
                    )
                    &&& final(out)@ == old(out)@ + with_images(held(line@, images, mode), written)
                }
        }),
{
    let ghost images = scan::spans(tokens@);
    let ghost style = Style { mode, protocol, config: *config };
    let ghost before = old(ids)@.clock.len();
    let mut cursor: usize = 0;
    let mut i: usize = 0;
    assert(out@ =~= old(out)@ + held_start(line@, images, mode, 0));
    while i < tokens.len()
        invariant
            scan::spans(tokens@) == images,
            are_orderly(images, line@.len() as int),
            i <= tokens@.len() == images.len(),
            cursor == after_images(images, i as int),
            cursor <= line@.len(),
            out@ == old(out)@ + held_start(line@, images, mode, i as nat),
        decreases tokens@.len() - i,
    {
        broadcast use bytes::group_append;

        proof {
            assert(tokens@[i as int]@ == images[i as int]);
            if i > 0 {
                assert(images[i - 1].end <= images[i as int].start);
            }
        }
        extend(out, vstd::slice::slice_subrange(line, cursor, tokens[i].start));
        match mode {
            Mode::Aligned => write_aligned_placeholder(out, tokens[i].end - tokens[i].start),
            Mode::Unaligned | Mode::Expanded => push_text(out, "[img]"),
        }
        cursor = tokens[i].end;
        i += 1;
    }
    extend(out, vstd::slice::slice_subrange(line, cursor, line.len()));
    let ghost head = out@;
    assert(line@.subrange(cursor as int, line@.len() as int) =~= line@.skip(cursor as int));
    assert(head =~= old(out)@ + held(line@, images, mode));
    let ghost mut written: Seq<Seq<u8>> = Seq::empty();
    let mut k: usize = 0;
    while k < tokens.len()
        invariant
            scan::spans(tokens@) == images,
            are_orderly(images, line@.len() as int),
            are_sendable(images, protocol),
            style == (Style { mode, protocol, config: *config }),
            before == old(ids)@.clock.len(),
            k <= tokens@.len() == images.len(),
            written.len() == k,
            are_written(line@, images, style, ids@, before as int, written),
            old(ids)@.extends_to(ids@),
            ids@.clock.len() == before + draws(images, style, k as nat),
            out@ == with_images(head, written),
        decreases tokens@.len() - k,
    {
        assert(tokens@[k as int]@ == images[k as int]);
        let original: &str = match utf8_text(
            vstd::slice::slice_subrange(line, tokens[k].start, tokens[k].end),
        ) {
            Some(text) => text,
            None => "",
        };
        proof {
            lemma_no_text();
            assert(bytes::text(original) == token_text(line@, images[k as int]));
        }
        let ghost log = ids@;
        let ghost done = out@;
        match encode::write(out, protocol, original, tokens[k].decoded.as_slice(), config, ids) {
            Ok(()) => {},
            Err(error) => return Err(error),
        }
        let ghost text = out@.skip(done.len() as int);
        assert(out@ =~= done + text);
        if out.len() == 0 || out[out.len() - 1] != bytes::NEWLINE {
            out.push(bytes::NEWLINE);
        }
        proof {
            assert(out@ == terminated(done + text));
            lemma_written_next(line@, images, style, log, ids@, before as int, written, text);
            assert(written.push(text).drop_last() =~= written);
            written = written.push(text);
        }
        k += 1;
    }
    proof {
        if images.len() > 0 {
            lemma_held_is_not_empty(line@, images, mode);
        }
        lemma_with_images(old(out)@, held(line@, images, mode), written);
    }
    Ok(())
}

/// The empty text has no bytes.
proof fn lemma_no_text()
    ensures
        bytes::text("") == Seq::<u8>::empty(),
{
    reveal_strlit("");
    vstd::utf8::is_ascii_chars_encode_utf8(""@);
    assert(bytes::text("") =~= Seq::<u8>::empty());
}

/// Lines without images take no image numbers.
proof fn lemma_draws_skip(images: Seq<Seq<TokenSpan>>, style: Style, from: nat, to: nat)
    requires
        from <= to <= images.len(),
        forall|i: int| from <= i < to ==> (#[trigger] images[i]).len() == 0,
    ensures
        draws_before(images, style, from) == draws_before(images, style, to),
    decreases to - from,
{
    if from < to {
        assert(images[to - 1].len() == 0);
        lemma_draws_skip(images, style, from, (to - 1) as nat);
    }
}

/// Lines without images are rendered as they are.
pub proof fn lemma_rendered_plain(
    lines: Seq<Seq<u8>>,
    images: Seq<Seq<TokenSpan>>,
    style: Style,
    log: IdLog,
    at: int,
    rendered: Seq<Seq<u8>>,
    to: int,
)
    requires
        are_rendered(lines, images, style, log, at, rendered),
        rendered.len() <= to <= lines.len() == images.len(),
        forall|i: int| rendered.len() <= i < to ==> (#[trigger] images[i]).len() == 0,
    ensures
        are_rendered(
            lines,
            images,
            style,
            log,
            at,
            rendered + lines.subrange(rendered.len() as int, to),
        ),
        draws_before(images, style, rendered.len()) == draws_before(images, style, to as nat),
{
    let more = rendered + lines.subrange(rendered.len() as int, to);
    assert forall|i: int| 0 <= i < more.len() implies is_rendered(
        lines[i],
        images[i],
        style,
        log,
        at + draws_before(images, style, i as nat),
        #[trigger] more[i],
    ) by {
        if i < rendered.len() {
            assert(more[i] == rendered[i]);
        } else {
            assert(more[i] == lines[i]);
            assert(images[i].len() == 0);
        }
    }
    lemma_draws_skip(images, style, rendered.len(), to as nat);
}

/// One more line is rendered.
pub proof fn lemma_rendered_next(
    lines: Seq<Seq<u8>>,
    images: Seq<Seq<TokenSpan>>,
    style: Style,
    log: IdLog,
    later: IdLog,
    at: int,
    rendered: Seq<Seq<u8>>,
    text: Seq<u8>,
)
    requires
        are_rendered(lines, images, style, log, at, rendered),
        log.extends_to(later),
        rendered.len() < lines.len(),
        is_rendered(
            lines[rendered.len() as int],
            images[rendered.len() as int],
            style,
            later,
            at + draws_before(images, style, rendered.len()),
            text,
        ),
    ensures
        are_rendered(lines, images, style, later, at, rendered.push(text)),
{
    lemma_rendered_extends(lines, images, style, log, later, at, rendered);
    let more = rendered.push(text);
    assert forall|i: int| 0 <= i < more.len() implies is_rendered(
        lines[i],
        images[i],
        style,
        later,
        at + draws_before(images, style, i as nat),
        #[trigger] more[i],
    ) by {
        if i < rendered.len() {
            assert(more[i] == rendered[i]);
        }
    }
}

/// What is written for an image of a line is never empty: it is an escape sequence or the
/// image as it was printed.
pub proof fn law_images_are_not_lost(
    line: Seq<u8>,
    style: Style,
    log: IdLog,
    at: int,
    written: Seq<Seq<u8>>,
    k: int,
)
    requires
        are_written(line, scan::images_in(line), style, log, at, written),
        0 <= k < written.len(),
    ensures
        written[k].len() > 0,
{
    scan::law_images_are_tokens(line, 0, k);
    lemma_token_is_text(line, k);
}

/// In an aligned table a line with placeholders is as wide as it was.
pub proof fn law_aligned_lines_keep_their_width(line: Seq<u8>)
    ensures
        held(line, scan::images_in(line), Mode::Aligned).len() == line.len(),
{
    let images = scan::images_in(line);
    lemma_held_start_len(line, images.len());
    if images.len() > 0 {
        scan::law_images_are_tokens(line, 0, images.len() - 1);
    }
}

proof fn lemma_held_start_len(line: Seq<u8>, n: nat)
    requires
        n <= scan::images_in(line).len(),
    ensures
        held_start(line, scan::images_in(line), Mode::Aligned, n).len() == after_images(
            scan::images_in(line),
            n as int,
        ),
    decreases n,
{
    let images = scan::images_in(line);
    if n > 0 {
        lemma_held_start_len(line, (n - 1) as nat);
        scan::law_images_are_tokens(line, 0, n - 1);
        if n > 1 {
            scan::law_images_are_tokens(line, 0, n - 2);
            scan::law_images_are_disjoint(line, 0, n - 2, n - 1);
        }
        lemma_placeholder_len();
    }
}

proof fn lemma_placeholder_len()
    ensures
        bytes::text("[img]").len() == 5,
{
    reveal_strlit("[img]");
    vstd::utf8::is_ascii_chars_encode_utf8("[img]"@);
}

/// A line with one image becomes the line with a placeholder, and what is written for the image.
proof fn lemma_one_image(
    before: Seq<u8>,
    token: Seq<u8>,
    after: Seq<u8>,
    mode: Mode,
    images: Seq<TokenSpan>,
    written: Seq<Seq<u8>>,
)
    requires
        images.len() == 1,
        images[0].start == before.len(),
        images[0].end == before.len() + token.len(),
        written.len() == 1,
        written[0].len() > 0,
    ensures
        with_images(held(before + token + after, images, mode), written) == before + placeholder(
            mode,
            token.len() as int,
        ) + after + terminated(written[0]),
{
    let line = before + token + after;
    let head = held(line, images, mode);
    reveal_with_fuel(held_start, 2);
    assert(line.subrange(0, images[0].start) =~= before);
    assert(line.skip(images[0].end) =~= after);
    assert(head =~= before + placeholder(mode, token.len() as int) + after);
    assert(with_images(head, written.drop_last()) == head);
    assert(terminated(head + written[0]) =~= head + terminated(written[0]));
}

/// An image that psql printed, in a line that holds nothing else of the kind, becomes a
/// placeholder in its line and, on lines of its own, what is written for the image's bytes.
#[verifier::spinoff_prover]
pub proof fn law_printed_image_is_written(
    before: Seq<u8>,
    image: Seq<u8>,
    after: Seq<u8>,
    style: Style,
    log: IdLog,
    at: int,
    text: Seq<u8>,
)
    requires
        scan::is_image(image),
        !before.contains(scan::BACKSLASH),
        !after.contains(scan::BACKSLASH),
        after.len() > 0 ==> !scan::is_hex_digit(after[0]),
        is_rendered(
            before + scan::printed_bytea(image) + after,
            scan::images_in(before + scan::printed_bytea(image) + after),
            style,
            log,
            at,
            text,
        ),
    ensures
        exists|written: Seq<u8>|
            {
                &&& #[trigger] encode::is_written(
                    style.protocol,
                    scan::printed_bytea(image),
                    image,
                    style.config,
                    log,
                    at,
                    written,
                )
                &&& text == before + placeholder(style.mode, (2 + 2 * image.len()) as int) + after
                    + terminated(written)
            },
{
    let token = scan::printed_bytea(image);
    let line = before + token + after;
    scan::law_printed_image_is_found(before, image, after);
    let images = scan::images_in(line);
    assert(images.len() == 1);
    let written = choose|written: Seq<Seq<u8>>|
        {
            &&& written.len() == images.len()
            &&& #[trigger] are_written(line, images, style, log, at, written)
            &&& text == with_images(held(line, images, style.mode), written)
        };
    lemma_token_is_text(line, 0);
    law_images_are_not_lost(line, style, log, at, written, 0);
    assert(line.subrange(images[0].start, images[0].end) =~= token);
    assert(draws(images, style, 0) == 0);
    lemma_one_image(before, token, after, style.mode, images, written);
}

/// No image is scaled to be written.
pub open spec fn none_scaled(images: Seq<TokenSpan>, style: Style) -> bool {
    forall|k: int|
        0 <= k < images.len() ==> !encode::is_scaled(
            style.protocol,
            (#[trigger] images[k]).decoded,
            style.config,
        )
}

/// What a line becomes depends on nothing but the line, the settings and the image numbers,
/// unless it holds sixel graphics of an image that is scaled.
pub proof fn law_lines_are_determined(
    line: Seq<u8>,
    images: Seq<TokenSpan>,
    style: Style,
    log: IdLog,
    at: int,
    a: Seq<u8>,
    b: Seq<u8>,
)
    requires
        is_rendered(line, images, style, log, at, a),
        is_rendered(line, images, style, log, at, b),
        none_scaled(images, style),
    ensures
        a == b,
{
    if images.len() > 0 {
        let of_a = choose|written: Seq<Seq<u8>>|
            {
                &&& written.len() == images.len()
                &&& #[trigger] are_written(line, images, style, log, at, written)
                &&& a == with_images(held(line, images, style.mode), written)
            };
        let of_b = choose|written: Seq<Seq<u8>>|
            {
                &&& written.len() == images.len()
                &&& #[trigger] are_written(line, images, style, log, at, written)
                &&& b == with_images(held(line, images, style.mode), written)
            };
        assert forall|k: int| 0 <= k < images.len() implies of_a[k] == of_b[k] by {
            encode::law_written_is_determined(
                style.protocol,
                token_text(line, images[k]),
                images[k].decoded,
                style.config,
                log,
                at + draws(images, style, k as nat),
                of_a[k],
                of_b[k],
            );
        }
        assert(of_a =~= of_b);
    }
}

/// Nothing between two images of a line is an image.
proof fn lemma_gap_is_imageless(line: Seq<u8>, k: int)
    requires
        0 <= k <= scan::images_in(line).len(),
    ensures
        ({
            let images = scan::images_in(line);
            let from = after_images(images, k);
            let to = if k < images.len() {
                images[k].start
            } else {
                line.len() as int
            };
            0 <= from <= to <= line.len() && scan::is_imageless(line.subrange(from, to))
        }),
{
    let images = scan::images_in(line);
    let from = after_images(images, k);
    let to = if k < images.len() {
        images[k].start
    } else {
        line.len() as int
    };
    if k > 0 {
        scan::law_images_are_tokens(line, 0, k - 1);
    }
    if k < images.len() {
        scan::law_images_are_tokens(line, 0, k);
        if k > 0 {
            scan::law_images_are_disjoint(line, 0, k - 1, k);
        }
    }
    let gap = line.subrange(from, to);
    assert forall|at: int| !scan::image_at(gap, at) by {
        if scan::image_at(gap, at) {
            scan::lemma_image_in_part(line, from, to, at);
            scan::law_every_image_is_found(line, 0, from + at);
            let j = choose|j: int|
                0 <= j < images.len() && images[j] == scan::span_at(line, from + at);
            scan::law_images_are_tokens(line, 0, j);
            if j < k - 1 {
                scan::law_images_are_disjoint(line, 0, j, k - 1);
            }
            if j > k {
                scan::law_images_are_disjoint(line, 0, k, j);
            }
        }
    }
}

/// A placeholder holds no image and breaks any token at either end.
proof fn lemma_placeholder_breaks(mode: Mode, width: int)
    ensures
        ({
            let text = placeholder(mode, width);
            &&& text.len() > 0
            &&& scan::is_imageless(text)
            &&& scan::breaks_token(text[0])
            &&& scan::breaks_token(text.last())
        }),
{
    broadcast use bytes::lemma_lacks_joined;

    reveal_strlit("[img]");
    vstd::utf8::is_ascii_chars_encode_utf8("[img]"@);
    assert(!bytes::text("[img]").contains(scan::BACKSLASH));
    scan::lemma_no_backslash(placeholder(mode, width));
}

proof fn lemma_held_start_is_imageless(line: Seq<u8>, mode: Mode, n: nat)
    requires
        n <= scan::images_in(line).len(),
    ensures
        ({
            let start = held_start(line, scan::images_in(line), mode, n);
            &&& scan::is_imageless(start)
            &&& start.len() > 0 ==> scan::breaks_token(start.last())
        }),
    decreases n,
{
    let images = scan::images_in(line);
    if n > 0 {
        let image = images[n - 1];
        let before = held_start(line, images, mode, (n - 1) as nat);
        let gap = line.subrange(after_images(images, n - 1), image.start);
        lemma_held_start_is_imageless(line, mode, (n - 1) as nat);
        lemma_gap_is_imageless(line, n - 1);
        lemma_placeholder_breaks(mode, image.end - image.start);
        scan::lemma_imageless_joined(before, gap);
        scan::lemma_imageless_joined(before + gap, placeholder(mode, image.end - image.start));
    } else {
        scan::lemma_no_backslash(Seq::empty());
    }
}

/// Placeholders leave no image in a line.
pub proof fn law_placeholders_leave_no_image(line: Seq<u8>, mode: Mode)
    ensures
        scan::is_imageless(held(line, scan::images_in(line), mode)),
{
    let images = scan::images_in(line);
    lemma_held_start_is_imageless(line, mode, images.len());
    lemma_gap_is_imageless(line, images.len() as int);
    let from = after_images(images, images.len() as int);
    assert(line.skip(from) =~= line.subrange(from, line.len() as int));
    scan::lemma_imageless_joined(held_start(line, images, mode, images.len()), line.skip(from));
}

/// Images for iTerm2 after a text without images hold none, and end with a newline.
proof fn lemma_with_images_is_imageless(head: Seq<u8>, written: Seq<Seq<u8>>)
    requires
        scan::is_imageless(head),
        forall|k: int|
            0 <= k < written.len() ==> {
                &&& (#[trigger] written[k]).len() > 0
                &&& written[k][0] == 0x1b
                &&& !written[k].contains(scan::BACKSLASH)
            },
    ensures
        scan::is_imageless(with_images(head, written)),
        written.len() > 0 ==> with_images(head, written).len() > 0 && with_images(
            head,
            written,
        ).last() == bytes::NEWLINE,
    decreases written.len(),
{
    if written.len() > 0 {
        let less = written.drop_last();
        assert forall|k: int| 0 <= k < less.len() implies {
            &&& (#[trigger] less[k]).len() > 0
            &&& less[k][0] == 0x1b
            &&& !less[k].contains(scan::BACKSLASH)
        } by {
            assert(less[k] == written[k]);
        }
        lemma_with_images_is_imageless(head, less);
        let before = with_images(head, less);
        let last = written[written.len() - 1];
        scan::lemma_no_backslash(last);
        scan::lemma_imageless_joined(before, last);
        let end = seq![bytes::NEWLINE];
        assert(end[0] == bytes::NEWLINE);
        assert(!end.contains(scan::BACKSLASH));
        scan::lemma_no_backslash(end);
        scan::lemma_imageless_joined(before + last, end);
        assert((before + last).push(bytes::NEWLINE) =~= before + last + end);
    }
}

/// What a line becomes for iTerm2 holds no image that could be rewritten. It ends with a
/// newline where the line held an image.
pub proof fn law_iterm2_lines_hold_no_image(
    line: Seq<u8>,
    style: Style,
    log: IdLog,
    at: int,
    text: Seq<u8>,
)
    requires
        style.protocol == Protocol::ITerm2,
        is_rendered(line, scan::images_in(line), style, log, at, text),
    ensures
        scan::is_imageless(text),
        scan::images_in(line).len() > 0 ==> text.len() > 0 && text.last() == bytes::NEWLINE,
{
    let images = scan::images_in(line);
    if images.len() == 0 {
        scan::lemma_nothing_found(line);
    } else {
        let written = choose|written: Seq<Seq<u8>>|
            {
                &&& written.len() == images.len()
                &&& #[trigger] are_written(line, images, style, log, at, written)
                &&& text == with_images(held(line, images, style.mode), written)
            };
        assert forall|k: int| 0 <= k < written.len() implies {
            &&& (#[trigger] written[k]).len() > 0
            &&& written[k][0] == 0x1b
            &&& !written[k].contains(scan::BACKSLASH)
        } by {
            scan::law_images_are_tokens(line, 0, k);
            encode::law_iterm2_holds_no_value(images[k].decoded, style.config);
        }
        law_placeholders_leave_no_image(line, style.mode);
        lemma_with_images_is_imageless(held(line, images, style.mode), written);
    }
}

/// A placeholder reads `[img]`. In an aligned table it is filled up with spaces to the width of
/// the image, and nowhere else.
pub proof fn law_placeholders_read_so(mode: Mode, width: int)
    ensures
        ({
            let text = placeholder(mode, width);
            &&& text.len() == if mode == Mode::Aligned && width > 5 {
                width
            } else {
                5
            }
            &&& text.take(5) == seq![0x5bu8, 0x69, 0x6d, 0x67, 0x5d]
            &&& forall|i: int| 5 <= i < text.len() ==> #[trigger] text[i] == 0x20
        }),
{
    reveal_strlit("[img]");
    vstd::utf8::is_ascii_chars_encode_utf8("[img]"@);
    assert(placeholder(mode, width).take(5) =~= seq![0x5bu8, 0x69, 0x6d, 0x67, 0x5d]);
}

/// Images as they stand in the rest of a line from `from` on.
pub open spec fn moved(images: Seq<TokenSpan>, from: int) -> Seq<TokenSpan> {
    images.map_values(
        |image: TokenSpan|
            TokenSpan { start: image.start - from, end: image.end - from, decoded: image.decoded },
    )
}

/// A line without images is held as it is. A line with images is held up to the first one as it
/// is, then comes the placeholder of that image, and the rest of the line is held as a line of
/// its own.
pub proof fn law_lines_are_held_piece_by_piece(line: Seq<u8>, images: Seq<TokenSpan>, mode: Mode)
    requires
        are_orderly(images, line.len() as int),
    ensures
        images.len() == 0 ==> held(line, images, mode) == line,
        images.len() > 0 ==> held(line, images, mode) == line.take(images[0].start) + placeholder(
            mode,
            images[0].end - images[0].start,
        ) + held(line.skip(images[0].end), moved(images.drop_first(), images[0].end), mode),
{
    if images.len() == 0 {
        assert(held(line, images, mode) =~= line);
    } else {
        let end = images[0].end;
        let rest = line.skip(end);
        let later = moved(images.drop_first(), end);
        let n = later.len();
        lemma_held_start_first(line, images, mode, n);
        assert(line.skip(after_images(images, images.len() as int)) =~= rest.skip(
            after_images(later, n as int),
        ));
        let head = line.take(images[0].start) + placeholder(mode, end - images[0].start);
        bytes::lemma_append_parts(
            head,
            held_start(rest, later, mode, n),
            rest.skip(after_images(later, n as int)),
        );
    }
}

proof fn lemma_held_start_first(line: Seq<u8>, images: Seq<TokenSpan>, mode: Mode, n: nat)
    requires
        are_orderly(images, line.len() as int),
        n < images.len(),
    ensures
        held_start(line, images, mode, n + 1) == line.take(images[0].start) + placeholder(
            mode,
            images[0].end - images[0].start,
        ) + held_start(
            line.skip(images[0].end),
            moved(images.drop_first(), images[0].end),
            mode,
            n,
        ),
    decreases n,
{
    let end = images[0].end;
    let rest = line.skip(end);
    let later = moved(images.drop_first(), end);
    let head = line.take(images[0].start) + placeholder(mode, end - images[0].start);
    if n == 0 {
        assert(held_start(line, images, mode, 0) =~= Seq::empty());
        assert(line.subrange(0, images[0].start) =~= line.take(images[0].start));
        assert(held_start(line, images, mode, 1) =~= head);
        assert(head + Seq::<u8>::empty() =~= head);
    } else {
        lemma_held_start_first(line, images, mode, (n - 1) as nat);
        let k = n as int;
        assert(images[0].end <= images[k].start);
        assert(images[k - 1].end <= images[k].start);
        assert(later[k - 1].start == images[k].start - end);
        assert(later[k - 1].end == images[k].end - end);
        let gap = line.subrange(after_images(images, k), images[k].start);
        if k > 1 {
            assert(later[k - 2].end == images[k - 1].end - end);
            assert(images[0].end <= images[k - 1].start);
        }
        assert(gap =~= rest.subrange(after_images(later, k - 1), later[k - 1].start));
        let before = held_start(rest, later, mode, (n - 1) as nat);
        let mark = placeholder(mode, images[k].end - images[k].start);
        bytes::lemma_append_parts(head, before, gap);
        bytes::lemma_append_parts(head, before + gap, mark);
    }
}

/// The images of a line follow it in order, each as it was written and each on lines of its own:
/// a newline ends it, one of its own where there is one.
pub proof fn law_images_follow_their_line(head: Seq<u8>, written: Seq<Seq<u8>>)
    requires
        forall|k: int| 0 <= k < written.len() ==> (#[trigger] written[k]).len() > 0,
    ensures
        with_images(head, written) == head + Seq::new(
            written.len(),
            |k: int|
                if written[k].last() == 0x0a {
                    written[k]
                } else {
                    written[k].push(0x0a)
                },
        ).flatten(),
    decreases written.len(),
{
    let pieces = |k: int|
        if written[k].last() == 0x0a {
            written[k]
        } else {
            written[k].push(0x0a)
        };
    if written.len() == 0 {
        assert(head + Seq::new(0, pieces).flatten() =~= head);
    } else {
        let n = (written.len() - 1) as nat;
        let less = written.drop_last();
        let fewer = |k: int|
            if less[k].last() == 0x0a {
                less[k]
            } else {
                less[k].push(0x0a)
            };
        assert forall|k: int| 0 <= k < less.len() implies (#[trigger] less[k]).len() > 0 by {
            assert(less[k] == written[k]);
        }
        law_images_follow_their_line(head, less);
        assert(Seq::new(n, fewer) =~= Seq::new(n, pieces));
        bytes::lemma_flatten_next(pieces, n);
        let last = written.last();
        assert(last == written[n as int] && last.len() > 0);
        let done = with_images(head, less);
        assert((done + last).last() == last.last());
        assert(terminated(done + last) =~= done + pieces(n as int));
        bytes::lemma_append_parts(head, Seq::new(n, pieces).flatten(), pieces(n as int));
    }
}

/// An image that takes a number takes one that no image of the line before it took.
pub proof fn law_images_take_their_own_numbers(
    images: Seq<TokenSpan>,
    style: Style,
    j: int,
    k: int,
)
    requires
        0 <= j < k <= images.len(),
        encode::takes_id(style.protocol, images[j].decoded, style.config),
    ensures
        draws(images, style, j as nat) < draws(images, style, k as nat),
    decreases k - j,
{
    if j < k - 1 {
        law_images_take_their_own_numbers(images, style, j, k - 1);
    }
}

/// The images of a later line take their numbers after those of an earlier one.
pub proof fn law_lines_take_their_own_numbers(
    images: Seq<Seq<TokenSpan>>,
    style: Style,
    i: int,
    j: int,
)
    requires
        0 <= i < j <= images.len(),
    ensures
        draws_before(images, style, i as nat) + draws(images[i], style, images[i].len())
            <= draws_before(images, style, j as nat),
    decreases j - i,
{
    if i < j - 1 {
        law_lines_take_their_own_numbers(images, style, i, j - 1);
    }
}

/// Every image of a line is rewritten: the line becomes the line with a placeholder for each, and
/// after it what is written for each, in order, or the value as it was printed where nothing can
/// be shown.
pub proof fn law_every_image_is_rewritten(
    line: Seq<u8>,
    style: Style,
    log: IdLog,
    at: int,
    text: Seq<u8>,
) -> (written: Seq<Seq<u8>>)
    requires
        is_rendered(line, scan::images_in(line), style, log, at, text),
        scan::images_in(line).len() > 0,
    ensures
        ({
            let images = scan::images_in(line);
            &&& written.len() == images.len()
            &&& forall|k: int|
                0 <= k < images.len() ==> encode::is_written(
                    style.protocol,
                    line.subrange(images[k].start, images[k].end),
                    images[k].decoded,
                    style.config,
                    log,
                    at + draws(images, style, k as nat),
                    #[trigger] written[k],
                )
            &&& forall|k: int| 0 <= k < images.len() ==> (#[trigger] written[k]).len() > 0
            &&& text == held(line, images, style.mode) + Seq::new(
                written.len(),
                |k: int|
                    if written[k].last() == 0x0a {
                        written[k]
                    } else {
                        written[k].push(0x0a)
                    },
            ).flatten()
        }),
{
    let images = scan::images_in(line);
    let written = choose|written: Seq<Seq<u8>>|
        {
            &&& written.len() == images.len()
            &&& #[trigger] are_written(line, images, style, log, at, written)
            &&& text == with_images(held(line, images, style.mode), written)
        };
    assert forall|k: int| 0 <= k < images.len() implies (#[trigger] written[k]).len() > 0
        && encode::is_written(
        style.protocol,
        line.subrange(images[k].start, images[k].end),
        images[k].decoded,
        style.config,
        log,
        at + draws(images, style, k as nat),
        written[k],
    ) by {
        lemma_token_is_text(line, k);
        law_images_are_not_lost(line, style, log, at, written, k);
    }
    law_images_follow_their_line(held(line, images, style.mode), written);
    written
}

} // verus!
