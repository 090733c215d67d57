//! One image as the bytes that make a terminal show it.

use vstd::prelude::*;

use crate::bytes;
use crate::bytes::{extend, push_decimal, push_text};
use crate::config::Config;
use crate::gif;
use crate::image_id;
use crate::image_id::{IdLog, ImageIds};
use crate::kitty;
use crate::payload;
use crate::raster::{DecodeError, Raster};
use crate::reader;
use crate::scale;
use crate::scan;
use crate::sixel;
use crate::term::Protocol;
use crate::terminal;

verus! {

/// The keys for the size at which iTerm2 shows an image.
pub open spec fn iterm2_size_text(config: Config) -> Seq<u8> {
    let width = match config.max_pixels_w {
        Some(width) => bytes::text(";width=") + bytes::decimal(width as nat) + bytes::text("px"),
        None => Seq::empty(),
    };
    let height = match config.max_pixels_h {
        Some(height) => bytes::text(";height=") + bytes::decimal(height as nat) + bytes::text("px"),
        None => Seq::empty(),
    };
    width + height
}

/// An image file for iTerm2, which takes it as it is; nothing for any other file.
pub open spec fn iterm2_text(decoded: Seq<u8>, config: Config) -> Seq<u8> {
    if scan::is_image(decoded) {
        bytes::text("\x1b]1337;File=inline=1;size=") + bytes::decimal(decoded.len())
            + iterm2_size_text(config) + bytes::text(";preserveAspectRatio=1:") + payload::base64(
            decoded,
        ) + bytes::text("\x07")
    } else {
        Seq::empty()
    }
}

/// `escape`, or `original` where there is no escape sequence.
pub open spec fn or_original(escape: Seq<u8>, original: Seq<u8>) -> Seq<u8> {
    if escape.len() == 0 {
        original
    } else {
        escape
    }
}

/// The image takes an image number.
pub open spec fn takes_id(protocol: Protocol, decoded: Seq<u8>, config: Config) -> bool {
    protocol == Protocol::Kitty && kitty::draws_id(decoded, config)
}

/// `written` is what stands for the image file `decoded`, which was found as the text
/// `original`. An image that takes a number takes the one drawn after `at` others in `log`.
pub open spec fn is_written(
    protocol: Protocol,
    original: Seq<u8>,
    decoded: Seq<u8>,
    config: Config,
    log: IdLog,
    at: int,
    written: Seq<u8>,
) -> bool {
    match protocol {
        Protocol::Kitty => {
            &&& takes_id(protocol, decoded, config) ==> 0 <= at < log.clock.len()
            &&& written == or_original(kitty::kitty_text(decoded, config, log.id(at)), original)
        },
        Protocol::ITerm2 => written == or_original(iterm2_text(decoded, config), original),
        Protocol::Sixel => exists|sixels: Seq<u8>| #[trigger]
            sixel::is_sixel_of(decoded, config, sixels) && written == or_original(sixels, original),
        Protocol::Plain => written == original,
    }
}

/// What was written stays right when more numbers are drawn.
pub proof fn lemma_written_extends(
    protocol: Protocol,
    original: Seq<u8>,
    decoded: Seq<u8>,
    config: Config,
    log: IdLog,
    later: IdLog,
    at: int,
    written: Seq<u8>,
)
    requires
        is_written(protocol, original, decoded, config, log, at, written),
        log.extends_to(later),
    ensures
        is_written(protocol, original, decoded, config, later, at, written),
{
    if takes_id(protocol, decoded, config) {
        image_id::law_drawn_ids_are_kept(log, later, at);
    }
}

/// Appends the image file `decoded` in the protocol of the terminal, or `original`, the text
/// that it was found as, where the terminal cannot be made to show it.
pub fn write(
    out: &mut Vec<u8>,
    protocol: Protocol,
    original: &str,
    decoded: &[u8],
    config: &Config,
    ids: &mut ImageIds,
) -> (r: Result<(), DecodeError>)
    requires
        protocol == Protocol::Kitty || protocol == Protocol::ITerm2 ==> payload::base64_len(
            decoded@.len() as int,
        ) <= usize::MAX,
    ensures
        r is Ok,
        kitty::is_drawn(takes_id(protocol, decoded@, *config), old(ids)@, final(ids)@),
        old(out)@.is_prefix_of(final(out)@),
        is_written(
            protocol,
            bytes::text(original),
            decoded@,
            *config,
            final(ids)@,
            old(ids)@.clock.len() as int,
            final(out)@.skip(old(out)@.len() as int),
        ),
{
    let mut buf: Vec<u8> = Vec::new();
    match protocol {
        Protocol::Kitty => {
            match kitty::kitty(&mut buf, decoded, config, ids) {
                Ok(()) => {},
                Err(error) => return Err(error),
            }
        },
        Protocol::ITerm2 => iterm2(&mut buf, decoded, config),
        Protocol::Sixel => sixel::sixel(&mut buf, decoded, config),
        Protocol::Plain => extend(&mut buf, original.as_bytes()),
    }
    assert(buf@.skip(0) =~= buf@);
    assert(Seq::<u8>::empty() + kitty::kitty_text(
        decoded@,
        *config,
        ids@.id(old(ids)@.clock.len() as int),
    ) =~= kitty::kitty_text(decoded@, *config, ids@.id(old(ids)@.clock.len() as int)));
    assert(Seq::<u8>::empty() + iterm2_text(decoded@, *config) =~= iterm2_text(decoded@, *config));
    assert(Seq::<u8>::empty() + bytes::text(original) =~= bytes::text(original));
    if buf.len() == 0 {
        extend(out, original.as_bytes());
    } else {
        extend(out, buf.as_slice());
    }
    assert(out@.skip(old(out)@.len() as int) =~= or_original(buf@, bytes::text(original)));
    Ok(())
}

/// Appends an image file for iTerm2, or nothing for any other file.
pub fn iterm2(out: &mut Vec<u8>, decoded: &[u8], config: &Config)
    requires
        payload::base64_len(decoded@.len() as int) <= usize::MAX,
    ensures
        final(out)@ == old(out)@ + iterm2_text(decoded@, *config),
{
    broadcast use bytes::group_append;

    if !scan::is_supported_image(decoded) {
        return;
    }
    let payload: Vec<u8> = payload::encode_base64(decoded);
    push_text(out, "\x1b]1337;File=inline=1;size=");
    push_decimal(out, decoded.len() as u64);
    if let Some(width) = config.max_pixels_w {
        push_text(out, ";width=");
        push_decimal(out, width as u64);
        push_text(out, "px");
    }
    if let Some(height) = config.max_pixels_h {
        push_text(out, ";height=");
        push_decimal(out, height as u64);
        push_text(out, "px");
    }
    push_text(out, ";preserveAspectRatio=1:");
    extend(out, payload.as_slice());
    push_text(out, "\x07");
}

/// What is no image is written as it was found, and so is everything on a terminal that
/// takes no images.
pub proof fn law_other_values_are_kept(
    protocol: Protocol,
    original: Seq<u8>,
    decoded: Seq<u8>,
    config: Config,
    log: IdLog,
    at: int,
    written: Seq<u8>,
)
    requires
        is_written(protocol, original, decoded, config, log, at, written),
        protocol == Protocol::Plain || !scan::is_image(decoded),
    ensures
        written == original,
        !takes_id(protocol, decoded, config),
{
}

/// The image is brought to another size before it is written.
pub open spec fn is_scaled(protocol: Protocol, decoded: Seq<u8>, config: Config) -> bool {
    &&& protocol == Protocol::Sixel
    &&& sixel::shown_source(decoded, config) matches Ok(image)
    &&& scale::constrained(image.width, image.height, config) != (
        image.width as int,
        image.height as int,
    )
}

/// What is written depends on nothing but the image, the settings and the image number,
/// unless sixel graphics have to be scaled.
pub proof fn law_written_is_determined(
    protocol: Protocol,
    original: Seq<u8>,
    decoded: Seq<u8>,
    config: Config,
    log: IdLog,
    at: int,
    a: Seq<u8>,
    b: Seq<u8>,
)
    requires
        is_written(protocol, original, decoded, config, log, at, a),
        is_written(protocol, original, decoded, config, log, at, b),
        !is_scaled(protocol, decoded, config),
    ensures
        a == b,
{
}

/// What is written for iTerm2 starts with an escape character and holds no backslash: nothing
/// in it can be taken for a printed value.
pub proof fn law_iterm2_holds_no_value(decoded: Seq<u8>, config: Config)
    requires
        scan::is_image(decoded),
    ensures
        iterm2_text(decoded, config).len() > 0,
        iterm2_text(decoded, config)[0] == 0x1b,
        !iterm2_text(decoded, config).contains(scan::BACKSLASH),
{
    broadcast use bytes::lemma_lacks_joined;

    let b = scan::BACKSLASH;
    reveal_strlit("\x1b]1337;File=inline=1;size=");
    reveal_strlit(";width=");
    reveal_strlit(";height=");
    reveal_strlit("px");
    reveal_strlit(";preserveAspectRatio=1:");
    reveal_strlit("\x07");
    vstd::utf8::is_ascii_chars_encode_utf8("\x1b]1337;File=inline=1;size="@);
    vstd::utf8::is_ascii_chars_encode_utf8(";width="@);
    vstd::utf8::is_ascii_chars_encode_utf8(";height="@);
    vstd::utf8::is_ascii_chars_encode_utf8("px"@);
    vstd::utf8::is_ascii_chars_encode_utf8(";preserveAspectRatio=1:"@);
    vstd::utf8::is_ascii_chars_encode_utf8("\x07"@);
    assert(!bytes::text("\x1b]1337;File=inline=1;size=").contains(b));
    assert(!bytes::text(";width=").contains(b));
    assert(!bytes::text(";height=").contains(b));
    assert(!bytes::text("px").contains(b));
    assert(!bytes::text(";preserveAspectRatio=1:").contains(b));
    assert(!bytes::text("\x07").contains(b));
    assert(bytes::text("\x1b]1337;File=inline=1;size=")[0] == 0x1b);
    bytes::lemma_decimal_digits(decoded.len(), b);
    if let Some(width) = config.max_pixels_w {
        bytes::lemma_decimal_digits(width as nat, b);
    }
    if let Some(height) = config.max_pixels_h {
        bytes::lemma_decimal_digits(height as nat, b);
    }
    let payload = payload::base64(decoded);
    if payload.contains(b) {
        let i = choose|i: int| 0 <= i < payload.len() && payload[i] == b;
        payload::law_base64_is_printable(decoded, i);
    }
    assert(!iterm2_size_text(config).contains(b));
}

/// Two animations that are written one after the other tell different numbers, and neither
/// tells 1.
pub proof fn law_successive_animations_differ(
    original: (Seq<u8>, Seq<u8>),
    decoded: (Seq<u8>, Seq<u8>),
    config: (Config, Config),
    before: IdLog,
    between: IdLog,
    after: IdLog,
    written: (Seq<u8>, Seq<u8>),
)
    requires
        takes_id(Protocol::Kitty, decoded.0, config.0),
        takes_id(Protocol::Kitty, decoded.1, config.1),
        kitty::is_drawn(true, before, between),
        kitty::is_drawn(true, between, after),
        is_written(
            Protocol::Kitty,
            original.0,
            decoded.0,
            config.0,
            between,
            before.clock.len() as int,
            written.0,
        ),
        is_written(
            Protocol::Kitty,
            original.1,
            decoded.1,
            config.1,
            after,
            between.clock.len() as int,
            written.1,
        ),
    ensures
        kitty::shown_id(written.0) != 1,
        kitty::shown_id(written.1) != 1,
        kitty::shown_id(written.0) != kitty::shown_id(written.1),
{
    let n = before.clock.len() as int;
    let first = between.id(n);
    let second = after.id(n + 1);
    image_id::law_drawn_ids_are_kept(between, after, n);
    image_id::law_successive_ids_differ(after, n + 1);
    image_id::law_image_ids_are_large(between, n);
    image_id::law_image_ids_are_large(after, n + 1);
    kitty::law_animations_tell_their_id(decoded.0, config.0, first);
    kitty::law_animations_tell_their_id(decoded.1, config.1, second);
    kitty::lemma_animation_is_not_empty(decoded.0, config.0, first);
    kitty::lemma_animation_is_not_empty(decoded.1, config.1, second);
}

/// The entries of what goes with a file for iTerm2, after the first.
spec fn iterm2_entries(decoded: Seq<u8>, config: Config) -> Seq<terminal::Entry> {
    let px = bytes::text("px");
    let width = match config.max_pixels_w {
        Some(width) => Some(bytes::decimal(width as nat) + px),
        None => None,
    };
    let height = match config.max_pixels_h {
        Some(height) => Some(bytes::decimal(height as nat) + px),
        None => None,
    };
    terminal::maybe(bytes::text("size"), Some(bytes::decimal(decoded.len()))) + terminal::maybe(
        bytes::text("width"),
        width,
    ) + terminal::maybe(bytes::text("height"), height) + terminal::maybe(
        bytes::text("preserveAspectRatio"),
        Some(seq![0x31u8]),
    )
}

/// The names of what goes with a file for iTerm2.
pub open spec fn is_iterm2_name(name: Seq<u8>) -> bool {
    ||| name == bytes::text("inline")
    ||| name == bytes::text("size")
    ||| name == bytes::text("width")
    ||| name == bytes::text("height")
    ||| name == bytes::text("preserveAspectRatio")
}

proof fn lemma_iterm2_names(byte: u8)
    requires
        byte == terminal::SEMICOLON || byte == terminal::EQUALS || byte == terminal::COLON || byte
            == terminal::BELL,
    ensures
        !bytes::text("inline").contains(byte),
        !bytes::text("size").contains(byte),
        !bytes::text("width").contains(byte),
        !bytes::text("height").contains(byte),
        !bytes::text("preserveAspectRatio").contains(byte),
        bytes::text("inline").len() == 6,
        bytes::text("size").len() == 4,
        bytes::text("width").len() == 5,
        bytes::text("height") != bytes::text("inline"),
        bytes::text("height").len() == 6,
        bytes::text("preserveAspectRatio").len() == 19,
{
    reveal_strlit("inline");
    reveal_strlit("size");
    reveal_strlit("width");
    reveal_strlit("height");
    reveal_strlit("preserveAspectRatio");
    vstd::utf8::is_ascii_chars_encode_utf8("inline"@);
    vstd::utf8::is_ascii_chars_encode_utf8("size"@);
    vstd::utf8::is_ascii_chars_encode_utf8("width"@);
    vstd::utf8::is_ascii_chars_encode_utf8("height"@);
    vstd::utf8::is_ascii_chars_encode_utf8("preserveAspectRatio"@);
    assert(bytes::text("inline")[0] == 0x69 && bytes::text("height")[0] == 0x68);
}

/// What goes with a file for iTerm2 is read as it was written.
#[verifier::spinoff_prover]
proof fn lemma_iterm2_arguments(decoded: Seq<u8>, config: Config, name: Seq<u8>)
    requires
        !name.contains(terminal::EQUALS),
    ensures
        ({
            let first = terminal::Entry { name: bytes::text("inline"), value: seq![0x31u8] };
            let entries = iterm2_entries(decoded, config);
            let arguments = first.text() + terminal::tail_text(entries, terminal::SEMICOLON);
            &&& bytes::text("\x1b]1337;File=inline=1;size=") + bytes::decimal(decoded.len())
                + iterm2_size_text(config) + bytes::text(";preserveAspectRatio=1:") == bytes::text(
                "\x1b]1337;File=",
            ) + arguments + seq![terminal::COLON]
            &&& !arguments.contains(terminal::COLON)
            &&& !arguments.contains(terminal::BELL)
            &&& terminal::value_of(arguments, terminal::SEMICOLON, name) == if name == bytes::text(
                "inline",
            ) {
                Some(seq![0x31u8])
            } else {
                terminal::lookup(entries, name)
            }
            &&& terminal::lookup(entries, name) == if name == bytes::text("size") {
                Some(bytes::decimal(decoded.len()))
            } else if name == bytes::text("width") {
                match config.max_pixels_w {
                    Some(width) => Some(bytes::decimal(width as nat) + bytes::text("px")),
                    None => None,
                }
            } else if name == bytes::text("height") {
                match config.max_pixels_h {
                    Some(height) => Some(bytes::decimal(height as nat) + bytes::text("px")),
                    None => None,
                }
            } else if name == bytes::text("preserveAspectRatio") {
                Some(seq![0x31u8])
            } else {
                None
            }
        }),
{
    let s = terminal::SEMICOLON;
    let px = bytes::text("px");
    let width = match config.max_pixels_w {
        Some(width) => Some(bytes::decimal(width as nat) + px),
        None => None,
    };
    let height = match config.max_pixels_h {
        Some(height) => Some(bytes::decimal(height as nat) + px),
        None => None,
    };
    let size = Some(bytes::decimal(decoded.len()));
    let one = seq![0x31u8];
    let (n0, n1, n2, n3, n4) = (
        bytes::text("inline"),
        bytes::text("size"),
        bytes::text("width"),
        bytes::text("height"),
        bytes::text("preserveAspectRatio"),
    );
    let (e1, e2, e3, e4) = (
        terminal::maybe(n1, size),
        terminal::maybe(n2, width),
        terminal::maybe(n3, height),
        terminal::maybe(n4, Some(one)),
    );
    lemma_iterm2_names(s);
    lemma_iterm2_names(terminal::EQUALS);
    lemma_iterm2_plain(config, decoded.len(), s);
    terminal::lemma_maybe(n1, size, s, name);
    terminal::lemma_maybe(n2, width, s, name);
    terminal::lemma_maybe(n3, height, s, name);
    terminal::lemma_maybe(n4, Some(one), s, name);
    terminal::lemma_entries_joined(e1, e2, s, name);
    terminal::lemma_entries_joined(e1 + e2, e3, s, name);
    terminal::lemma_entries_joined(e1 + e2 + e3, e4, s, name);
    let first = terminal::Entry { name: n0, value: one };
    assert(!one.contains(s));
    terminal::lemma_list_is_read(first, e1 + e2 + e3 + e4, s, name);
    lemma_iterm2_text(decoded, config);
}

/// No separator stands in the values of what goes with a file.
proof fn lemma_iterm2_plain(config: Config, size: nat, byte: u8)
    requires
        byte == terminal::SEMICOLON || byte == terminal::COLON || byte == terminal::BELL,
    ensures
        !bytes::decimal(size).contains(byte),
        config.max_pixels_w matches Some(width) ==> !(bytes::decimal(width as nat) + bytes::text(
            "px",
        )).contains(byte),
        config.max_pixels_h matches Some(height) ==> !(bytes::decimal(height as nat) + bytes::text(
            "px",
        )).contains(byte),
        bytes::text("px") == seq![0x70u8, 0x78],
{
    reveal_strlit("px");
    vstd::utf8::is_ascii_chars_encode_utf8("px"@);
    assert(bytes::text("px") =~= seq![0x70u8, 0x78]);
    bytes::lemma_decimal_digits(size, byte);
    if let Some(width) = config.max_pixels_w {
        bytes::lemma_decimal_digits(width as nat, byte);
        bytes::lemma_lacks_joined(bytes::decimal(width as nat), bytes::text("px"), byte);
    }
    if let Some(height) = config.max_pixels_h {
        bytes::lemma_decimal_digits(height as nat, byte);
        bytes::lemma_lacks_joined(bytes::decimal(height as nat), bytes::text("px"), byte);
    }
}

/// The text that goes before a file for iTerm2, entry by entry.
#[verifier::spinoff_prover]
proof fn lemma_iterm2_text(decoded: Seq<u8>, config: Config)
    ensures
        ({
            let first = terminal::Entry { name: bytes::text("inline"), value: seq![0x31u8] };
            let entries = iterm2_entries(decoded, config);
            let arguments = first.text() + terminal::tail_text(entries, terminal::SEMICOLON);
            &&& bytes::text("\x1b]1337;File=inline=1;size=") + bytes::decimal(decoded.len())
                + iterm2_size_text(config) + bytes::text(";preserveAspectRatio=1:") == bytes::text(
                "\x1b]1337;File=",
            ) + arguments + seq![terminal::COLON]
            &&& !arguments.contains(terminal::COLON)
            &&& !arguments.contains(terminal::BELL)
        }),
{
    let s = terminal::SEMICOLON;
    let px = bytes::text("px");
    let width = match config.max_pixels_w {
        Some(width) => Some(bytes::decimal(width as nat) + px),
        None => None,
    };
    let height = match config.max_pixels_h {
        Some(height) => Some(bytes::decimal(height as nat) + px),
        None => None,
    };
    let size = Some(bytes::decimal(decoded.len()));
    let one = seq![0x31u8];
    let eq = seq![terminal::EQUALS];
    let sep = seq![s];
    let (n0, n1, n2, n3, n4) = (
        bytes::text("inline"),
        bytes::text("size"),
        bytes::text("width"),
        bytes::text("height"),
        bytes::text("preserveAspectRatio"),
    );
    let (e1, e2, e3, e4) = (
        terminal::maybe(n1, size),
        terminal::maybe(n2, width),
        terminal::maybe(n3, height),
        terminal::maybe(n4, Some(one)),
    );
    terminal::lemma_maybe(n1, size, s, n1);
    terminal::lemma_maybe(n2, width, s, n1);
    terminal::lemma_maybe(n3, height, s, n1);
    terminal::lemma_maybe(n4, Some(one), s, n1);
    terminal::lemma_entries_joined(e1, e2, s, n1);
    terminal::lemma_entries_joined(e1 + e2, e3, s, n1);
    terminal::lemma_entries_joined(e1 + e2 + e3, e4, s, n1);
    lemma_iterm2_pieces();
    let digits = bytes::decimal(decoded.len());
    let w = match width {
        Some(value) => sep + n2 + eq + value,
        None => Seq::empty(),
    };
    let h = match height {
        Some(value) => sep + n3 + eq + value,
        None => Seq::empty(),
    };
    let arguments = n0 + eq + one + (sep + n1 + eq + digits + w + h + (sep + n4 + eq + one));
    assert(iterm2_size_text(config) == w + h) by {
        broadcast use bytes::group_append;

    }
    let lead = bytes::text("\x1b]1337;File=");
    assert(lead + (n0 + eq + one + sep + n1 + eq) + digits + (w + h) + (sep + n4 + eq + one + seq![
        terminal::COLON,
    ]) == lead + arguments + seq![terminal::COLON]) by {
        broadcast use bytes::group_append;

    }
    assert forall|byte: u8| byte == terminal::COLON || byte == terminal::BELL implies !(
    #[trigger] arguments.contains(byte)) by {
        broadcast use bytes::lemma_lacks_joined;

        lemma_iterm2_names(byte);
        lemma_iterm2_plain(config, decoded.len(), byte);
        assert(!one.contains(byte) && !eq.contains(byte) && !sep.contains(byte));
        assert(!w.contains(byte));
        assert(!h.contains(byte));
    }
}

/// The pieces of the text that goes before a file for iTerm2.
proof fn lemma_iterm2_pieces()
    ensures
        ({
            let eq = seq![terminal::EQUALS];
            let sep = seq![terminal::SEMICOLON];
            let one = seq![0x31u8];
            &&& bytes::text("\x1b]1337;File=inline=1;size=") == bytes::text("\x1b]1337;File=") + (
            bytes::text("inline") + eq + one + sep + bytes::text("size") + eq)
            &&& bytes::text(";width=") == sep + bytes::text("width") + eq
            &&& bytes::text(";height=") == sep + bytes::text("height") + eq
            &&& bytes::text(";preserveAspectRatio=1:") == sep + bytes::text("preserveAspectRatio")
                + eq + one + seq![terminal::COLON]
            &&& bytes::text("\x1b]1337;File=") == seq![
                terminal::ESCAPE,
                0x5du8,
                0x31,
                0x33,
                0x33,
                0x37,
                terminal::SEMICOLON,
                0x46,
                0x69,
                0x6c,
                0x65,
                terminal::EQUALS,
            ]
            &&& bytes::text("\x07") == seq![terminal::BELL]
        }),
{
    reveal_strlit("\x1b]1337;File=inline=1;size=");
    reveal_strlit("\x1b]1337;File=");
    reveal_strlit(";width=");
    reveal_strlit(";height=");
    reveal_strlit(";preserveAspectRatio=1:");
    reveal_strlit("inline");
    reveal_strlit("size");
    reveal_strlit("width");
    reveal_strlit("height");
    reveal_strlit("preserveAspectRatio");
    reveal_strlit("\x07");
    vstd::utf8::is_ascii_chars_encode_utf8("\x1b]1337;File=inline=1;size="@);
    vstd::utf8::is_ascii_chars_encode_utf8("\x1b]1337;File="@);
    vstd::utf8::is_ascii_chars_encode_utf8(";width="@);
    vstd::utf8::is_ascii_chars_encode_utf8(";height="@);
    vstd::utf8::is_ascii_chars_encode_utf8(";preserveAspectRatio=1:"@);
    vstd::utf8::is_ascii_chars_encode_utf8("inline"@);
    vstd::utf8::is_ascii_chars_encode_utf8("size"@);
    vstd::utf8::is_ascii_chars_encode_utf8("width"@);
    vstd::utf8::is_ascii_chars_encode_utf8("height"@);
    vstd::utf8::is_ascii_chars_encode_utf8("preserveAspectRatio"@);
    vstd::utf8::is_ascii_chars_encode_utf8("\x07"@);
    let eq = seq![terminal::EQUALS];
    let sep = seq![terminal::SEMICOLON];
    let one = seq![0x31u8];
    assert(bytes::text("\x1b]1337;File=inline=1;size=") =~= bytes::text("\x1b]1337;File=") + (
    bytes::text("inline") + eq + one + sep + bytes::text("size") + eq));
    assert(bytes::text(";width=") =~= sep + bytes::text("width") + eq);
    assert(bytes::text(";height=") =~= sep + bytes::text("height") + eq);
    assert(bytes::text(";preserveAspectRatio=1:") =~= sep + bytes::text("preserveAspectRatio") + eq
        + one + seq![terminal::COLON]);
    assert(bytes::text("\x1b]1337;File=") =~= seq![
        terminal::ESCAPE,
        0x5du8,
        0x31,
        0x33,
        0x33,
        0x37,
        terminal::SEMICOLON,
        0x46,
        0x69,
        0x6c,
        0x65,
        terminal::EQUALS,
    ]);
    assert(bytes::text("\x07") =~= seq![terminal::BELL]);
}

/// What iTerm2 reads of an image file is the whole file: what stands between the first colon and
/// the BEL at the end is base64 text of exactly its bytes, as many as the size says. The file is
/// to be shown in place, in its own proportions, and at the sizes of the settings, each where
/// there is one, and nothing else is said of it.
#[verifier::spinoff_prover]
pub proof fn law_iterm2_gets_the_file(decoded: Seq<u8>, config: Config)
    requires
        scan::is_image(decoded),
    ensures
        terminal::inline_file(iterm2_text(decoded, config)) matches Some(file) && {
            let value = |name: Seq<u8>|
                terminal::value_of(file.arguments, terminal::SEMICOLON, name);
            &&& payload::unbase64(file.payload) == decoded
            &&& file.payload == payload::base64(decoded)
            &&& terminal::read_number(value(bytes::text("size"))) == Some(decoded.len() as int)
            &&& terminal::read_number(value(bytes::text("inline"))) == Some(1int)
            &&& terminal::read_number(value(bytes::text("preserveAspectRatio"))) == Some(1int)
            &&& terminal::read_pixels(value(bytes::text("width"))) == match config.max_pixels_w {
                Some(width) => Some(width as int),
                None => None,
            }
            &&& terminal::read_pixels(value(bytes::text("height"))) == match config.max_pixels_h {
                Some(height) => Some(height as int),
                None => None,
            }
            &&& value(bytes::text("width")) is Some <==> config.max_pixels_w is Some
            &&& value(bytes::text("height")) is Some <==> config.max_pixels_h is Some
            &&& forall|name: Seq<u8>|
                !name.contains(terminal::EQUALS) && (#[trigger] terminal::value_of(
                    file.arguments,
                    terminal::SEMICOLON,
                    name,
                )) is Some ==> is_iterm2_name(name)
        },
{
    let payload = payload::base64(decoded);
    let first = terminal::Entry { name: bytes::text("inline"), value: seq![0x31u8] };
    let entries = iterm2_entries(decoded, config);
    let arguments = first.text() + terminal::tail_text(entries, terminal::SEMICOLON);
    lemma_iterm2_names(terminal::EQUALS);
    assert forall|name: Seq<u8>|
        !name.contains(terminal::EQUALS) && (#[trigger] terminal::value_of(
            arguments,
            terminal::SEMICOLON,
            name,
        )) is Some implies is_iterm2_name(name) by {
        lemma_iterm2_arguments(decoded, config, name);
    }
    lemma_iterm2_arguments(decoded, config, bytes::text("inline"));
    lemma_iterm2_arguments(decoded, config, bytes::text("size"));
    lemma_iterm2_arguments(decoded, config, bytes::text("width"));
    lemma_iterm2_arguments(decoded, config, bytes::text("height"));
    lemma_iterm2_arguments(decoded, config, bytes::text("preserveAspectRatio"));
    lemma_iterm2_pieces();
    if payload.contains(terminal::BELL) {
        let i = choose|i: int| 0 <= i < payload.len() && payload[i] == terminal::BELL;
        payload::law_base64_is_printable(decoded, i);
    }
    terminal::lemma_inline_file(bytes::text("\x1b]1337;File="), arguments, payload);
    payload::law_base64_is_reversible(decoded);
    terminal::lemma_number_is_read(decoded.len());
    lemma_one_is_read();
    lemma_iterm2_plain(config, 0, terminal::BELL);
    if let Some(width) = config.max_pixels_w {
        terminal::lemma_pixels_are_read(width as nat, bytes::text("px"));
    }
    if let Some(height) = config.max_pixels_h {
        terminal::lemma_pixels_are_read(height as nat, bytes::text("px"));
    }
}

proof fn lemma_one_is_read()
    ensures
        terminal::read_number(Some(seq![0x31u8])) == Some(1int),
{
    terminal::lemma_number_is_read(1);
    assert(bytes::decimal(1) =~= seq![0x31u8]);
}

/// What is written for an image is what the terminal shows it by, and the value as it was printed
/// only where there is nothing to show. A PNG file goes to kitty whole, a GIF file as an
/// animation where it can be shown as one; either goes to iTerm2 whole; and on a sixel terminal
/// the pixels of either are painted where it can be decoded.
pub proof fn law_images_are_written(
    protocol: Protocol,
    original: Seq<u8>,
    decoded: Seq<u8>,
    config: Config,
    log: IdLog,
    at: int,
    written: Seq<u8>,
)
    requires
        is_written(protocol, original, decoded, config, log, at, written),
        scan::is_image(decoded),
    ensures
        protocol == Protocol::Plain ==> written == original,
        protocol == Protocol::ITerm2 ==> {
            &&& terminal::inline_file(written) matches Some(file)
            &&& payload::unbase64(file.payload) == decoded
        },
        protocol == Protocol::Kitty && scan::is_png(decoded) ==> {
            &&& terminal::packets(written) matches Some(read)
            &&& terminal::bring_one_image(read)
            &&& payload::unbase64(terminal::carried(read)) == decoded
            &&& terminal::key(read[0], 0x61) == Some(seq![0x54u8])
        },
        protocol == Protocol::Kitty && scan::is_gif(decoded) ==> match gif::animation(
            decoded,
            config,
        ) {
            Ok(frames) if frames.len() > 0 => {
                &&& 0 <= at < log.clock.len()
                &&& written == kitty::gif_text(decoded, config, log.id(at))
                &&& kitty::shown_id(written) == log.id(at)
            },
            _ => written == original,
        },
        protocol == Protocol::Sixel ==> match sixel::shown_source(decoded, config) {
            Ok(source) => exists|image: Raster|
                {
                    &&& #[trigger] sixel::is_shown_as(source, config, image)
                    &&& image.wf()
                    &&& image.width > 0
                    &&& image.height > 0
                    &&& written == sixel::sixel_text(image)
                },
            Err(_) => written == original,
        },
{
    scan::law_images_start_so(decoded);
    match protocol {
        Protocol::Plain => {},
        Protocol::ITerm2 => {
            law_iterm2_gets_the_file(decoded, config);
            law_iterm2_holds_no_value(decoded, config);
        },
        Protocol::Kitty => {
            if scan::is_png(decoded) {
                kitty::law_png_files_are_sent(decoded, config);
            } else if kitty::animates(decoded, config) {
                kitty::lemma_animation_is_not_empty(decoded, config, log.id(at));
                kitty::law_animations_tell_their_id(decoded, config, log.id(at));
            }
        },
        Protocol::Sixel => {
            let sixels = choose|sixels: Seq<u8>| #[trigger]
                sixel::is_sixel_of(decoded, config, sixels) && written == or_original(
                    sixels,
                    original,
                );
            if let Ok(source) = sixel::shown_source(decoded, config) {
                let image = choose|image: Raster| #[trigger]
                    sixel::is_shown_as(source, config, image) && image.wf() && sixels
                        == sixel::sixel_text(image);
                sixel::law_shown_size_is_within_limits(source, config, image);
                reader::law_terminals_show_the_image(image, 0, 0, 0);
                assert(sixels.len() > 0) by {
                    reader::law_terminals_know_the_colors(image, 0);
                }
            }
        },
    }
}

/// An image takes a number exactly where it goes to kitty as an animation.
pub proof fn law_animations_take_numbers(protocol: Protocol, decoded: Seq<u8>, config: Config)
    ensures
        takes_id(protocol, decoded, config) <==> {
            &&& protocol == Protocol::Kitty
            &&& scan::is_gif(decoded)
            &&& gif::animation(decoded, config) matches Ok(frames)
            &&& frames.len() > 0
        },
{
    scan::law_images_start_so(decoded);
}

} // verus!
