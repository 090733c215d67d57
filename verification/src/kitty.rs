//! Images in the kitty graphics protocol.
//!
//! An image goes out as base64 text in packets of at most 4096 characters. All but the last
//! packet of an image say that more follow. A PNG file is sent as it is; of a GIF file the
//! decoded frames are sent, and then the animation is started.

use vstd::prelude::*;

use crate::bytes;
use crate::bytes::{extend, push_decimal, push_signed_decimal, push_text};
use crate::config::Config;
use crate::gif;
use crate::gif::{GifFrame, GifFrames, ShownFrame};
use crate::image_id::{IdLog, ImageIds};
use crate::payload;
use crate::raster::DecodeError;
use crate::scan;
use crate::terminal;
use crate::terminal::KeyValue;

verus! {

pub const KITTY_CHUNK_BYTES: usize = 4096;

/// What a terminal is asked to do with pixels.
#[derive(Clone, Copy, Debug, Eq, PartialEq, Structural)]
pub enum KittyAction {
    /// Show them as a new image.
    Show,
    /// Add them to an image as one more frame.
    AddFrame,
}

/// What goes with the pixels of an image.
pub struct KittyRgbaMetadata<'a> {
    pub action: KittyAction,
    pub image_id: Option<u32>,
    pub width: u32,
    pub height: u32,
    pub frame_delay_ms: Option<i32>,
    pub config: &'a Config,
}

/// The number of packets for `len` characters.
pub open spec fn packet_count(len: int) -> nat {
    ((len + KITTY_CHUNK_BYTES - 1) / (KITTY_CHUNK_BYTES as int)) as nat
}

/// Packet `i` is the last one for `len` characters.
pub open spec fn is_last_packet(len: int, i: int) -> bool {
    (i + 1) * KITTY_CHUNK_BYTES >= len
}

/// The characters of packet `i`.
pub open spec fn chunk(payload: Seq<u8>, i: int) -> Seq<u8> {
    payload.subrange(
        i * KITTY_CHUNK_BYTES,
        if is_last_packet(payload.len() as int, i) {
            payload.len() as int
        } else {
            (i + 1) * KITTY_CHUNK_BYTES
        },
    )
}

/// The keys for the size at which an image is shown.
pub open spec fn size_text(config: Config) -> Seq<u8> {
    let width = match config.max_pixels_w {
        Some(width) => bytes::text(",w=") + bytes::decimal(width as nat),
        None => Seq::empty(),
    };
    let height = match config.max_pixels_h {
        Some(height) => bytes::text(",h=") + bytes::decimal(height as nat),
        None => Seq::empty(),
    };
    width + height
}

/// Packet `i` of a PNG file that takes several.
pub open spec fn png_packet(payload: Seq<u8>, config: Config, i: int) -> Seq<u8> {
    let head = if i == 0 {
        bytes::text("\x1b_Gf=100,a=T,m=1") + size_text(config) + bytes::text(";")
    } else if is_last_packet(payload.len() as int, i) {
        bytes::text("\x1b_Gm=0;")
    } else {
        bytes::text("\x1b_Gm=1;")
    };
    head + chunk(payload, i) + bytes::text("\x1b\\")
}

/// A whole PNG file.
pub open spec fn png_text(decoded: Seq<u8>, config: Config) -> Seq<u8> {
    let payload = payload::base64(decoded);
    if payload.len() <= KITTY_CHUNK_BYTES {
        bytes::text("\x1b_Gf=100,a=T") + size_text(config) + bytes::text(";") + payload
            + bytes::text("\x1b\\")
    } else {
        Seq::new(
            packet_count(payload.len() as int),
            |i: int| png_packet(payload, config, i),
        ).flatten()
    }
}

/// The key for what is done with pixels.
pub open spec fn action_text(action: KittyAction) -> Seq<u8> {
    match action {
        KittyAction::Show => bytes::text("T"),
        KittyAction::AddFrame => bytes::text("f"),
    }
}

/// The keys that stand before the first characters of pixels.
pub open spec fn rgba_keys(meta: KittyRgbaMetadata<'_>) -> Seq<u8> {
    let id = match meta.image_id {
        Some(id) => bytes::text(",i=") + bytes::decimal(id as nat),
        None => Seq::empty(),
    };
    let delay = match meta.frame_delay_ms {
        Some(delay) => bytes::text(",z=") + bytes::signed_decimal(delay as int),
        None => Seq::empty(),
    };
    bytes::text("\x1b_Ga=") + action_text(meta.action) + bytes::text(",f=32,s=") + bytes::decimal(
        meta.width as nat,
    ) + bytes::text(",v=") + bytes::decimal(meta.height as nat) + id + delay + size_text(
        *meta.config,
    )
}

/// Packet `i` of the pixels of an image.
pub open spec fn rgba_packet(payload: Seq<u8>, meta: KittyRgbaMetadata<'_>, i: int) -> Seq<u8> {
    let last = is_last_packet(payload.len() as int, i);
    let head = if i == 0 {
        rgba_keys(meta) + (if last {
            Seq::empty()
        } else {
            bytes::text(",m=1")
        }) + bytes::text(";")
    } else {
        bytes::text("\x1b_G") + (if meta.action == KittyAction::AddFrame {
            bytes::text("a=f,")
        } else {
            Seq::empty()
        }) + (if last {
            bytes::text("m=0;")
        } else {
            bytes::text("m=1;")
        })
    };
    head + chunk(payload, i) + bytes::text("\x1b\\")
}

/// The pixels of an image.
pub open spec fn rgba_text(rgba: Seq<u8>, meta: KittyRgbaMetadata<'_>) -> Seq<u8> {
    let payload = payload::base64(rgba);
    Seq::new(
        packet_count(payload.len() as int),
        |i: int| rgba_packet(payload, meta, i),
    ).flatten()
}

/// Frame `k` of an animation: the first one makes the image, the others are added to it.
pub open spec fn frame_text(frame: ShownFrame, config: Config, image_id: u32, k: int) -> Seq<u8> {
    if k == 0 {
        rgba_text(
            frame.rgba,
            KittyRgbaMetadata {
                action: KittyAction::Show,
                image_id: Some(image_id),
                width: frame.width,
                height: frame.height,
                frame_delay_ms: None,
                config: &config,
            },
        ) + bytes::text("\x1b_Ga=a,i=") + bytes::decimal(image_id as nat) + bytes::text(",r=1,z=")
            + bytes::signed_decimal(frame.delay_ms as int) + bytes::text("\x1b\\")
    } else {
        rgba_text(
            frame.rgba,
            KittyRgbaMetadata {
                action: KittyAction::AddFrame,
                image_id: Some(image_id),
                width: frame.width,
                height: frame.height,
                frame_delay_ms: Some(frame.delay_ms),
                config: &config,
            },
        )
    }
}

/// Frames of an animation, one after the other.
pub open spec fn frames_text(frames: Seq<ShownFrame>, config: Config, image_id: u32) -> Seq<u8> {
    frames.map(|k: int, frame: ShownFrame| frame_text(frame, config, image_id, k)).flatten()
}

/// A whole animation; one of several frames is started.
pub open spec fn animation_text(frames: Seq<ShownFrame>, config: Config, image_id: u32) -> Seq<u8> {
    frames_text(frames, config, image_id) + (if frames.len() > 1 {
        bytes::text("\x1b_Ga=a,i=") + bytes::decimal(image_id as nat) + bytes::text(
            ",s=3,v=1\x1b\\",
        )
    } else {
        Seq::empty()
    })
}

/// `decoded` is decoded into an animation that can be shown.
pub open spec fn animates(decoded: Seq<u8>, config: Config) -> bool {
    gif::animation(decoded, config) matches Ok(frames) && frames.len() > 0
}

/// What is written for a GIF file, when `image_id` is the number that it takes; nothing for
/// one that cannot be shown as an animation.
pub open spec fn gif_text(decoded: Seq<u8>, config: Config, image_id: u32) -> Seq<u8> {
    match gif::animation(decoded, config) {
        Ok(frames) if frames.len() > 0 => animation_text(frames, config, image_id),
        _ => Seq::empty(),
    }
}

/// `decoded` is a GIF file that is shown as an animation, which takes an image number.
pub open spec fn draws_id(decoded: Seq<u8>, config: Config) -> bool {
    !scan::is_png(decoded) && scan::is_gif(decoded) && animates(decoded, config)
}

/// What is written for an image file, when `image_id` is the number that it takes; nothing
/// for a file that cannot be shown.
pub open spec fn kitty_text(decoded: Seq<u8>, config: Config, image_id: u32) -> Seq<u8> {
    if scan::is_png(decoded) {
        png_text(decoded, config)
    } else if scan::is_gif(decoded) {
        gif_text(decoded, config, image_id)
    } else {
        Seq::empty()
    }
}

/// The draws from `before` to `after`: one number where an image takes one.
pub open spec fn is_drawn(takes_one: bool, before: IdLog, after: IdLog) -> bool {
    &&& before.extends_to(after)
    &&& after.clock.len() == before.clock.len() + if takes_one {
        1int
    } else {
        0
    }
}

/// Appends the keys for the size at which an image is shown.
pub fn write_kitty_size(out: &mut Vec<u8>, config: &Config)
    ensures
        final(out)@ == old(out)@ + size_text(*config),
{
    if let Some(width) = config.max_pixels_w {
        push_text(out, ",w=");
        push_decimal(out, width as u64);
    }
    if let Some(height) = config.max_pixels_h {
        push_text(out, ",h=");
        push_decimal(out, height as u64);
    }
    assert(out@ =~= old(out)@ + size_text(*config));
}

/// Where packet `i` ends, for a payload that reaches beyond its start.
fn chunk_end(payload: &Vec<u8>, start: usize) -> (r: usize)
    requires
        start < payload@.len(),
    ensures
        r == if start + KITTY_CHUNK_BYTES >= payload@.len() {
            payload@.len() as int
        } else {
            start + KITTY_CHUNK_BYTES
        },
{
    if payload.len() - start <= KITTY_CHUNK_BYTES {
        payload.len()
    } else {
        start + KITTY_CHUNK_BYTES
    }
}

/// Appends a PNG file.
pub fn kitty_png(out: &mut Vec<u8>, decoded: &[u8], config: &Config)
    requires
        payload::base64_len(decoded@.len() as int) <= usize::MAX,
    ensures
        final(out)@ == old(out)@ + png_text(decoded@, *config),
{
    let payload: Vec<u8> = payload::encode_base64(decoded);
    if payload.len() <= KITTY_CHUNK_BYTES {
        push_text(out, "\x1b_Gf=100,a=T");
        write_kitty_size(out, config);
        push_text(out, ";");
        extend(out, payload.as_slice());
        push_text(out, "\x1b\\");
        assert(out@ =~= old(out)@ + png_text(decoded@, *config));
        return;
    }
    let ghost packets = |i: int| png_packet(payload@, *config, i);
    let ghost mut index: nat = 0;
    let mut start: usize = 0;
    assert(out@ =~= old(out)@ + Seq::new(0, packets).flatten());
    while start < payload.len()
        invariant
            packets == (|i: int| png_packet(payload@, *config, i)),
            payload@.len() > KITTY_CHUNK_BYTES,
            index <= packet_count(payload@.len() as int),
            start == if index * KITTY_CHUNK_BYTES >= payload@.len() {
                payload@.len() as int
            } else {
                index * KITTY_CHUNK_BYTES
            },
            out@ == old(out)@ + Seq::new(index, packets).flatten(),
        decreases payload@.len() - start,
    {
        let end: usize = chunk_end(&payload, start);
        let ghost before = out@;
        if start == 0 {
            push_text(out, "\x1b_Gf=100,a=T,m=1");
            write_kitty_size(out, config);
            push_text(out, ";");
        } else if end == payload.len() {
            push_text(out, "\x1b_Gm=0;");
        } else {
            push_text(out, "\x1b_Gm=1;");
        }
        extend(out, vstd::slice::slice_subrange(payload.as_slice(), start, end));
        push_text(out, "\x1b\\");
        proof {
            assert(out@ =~= before + packets(index as int));
            bytes::lemma_flatten_next(packets, index);
            index = index + 1;
        }
        assert(out@ =~= old(out)@ + Seq::new(index, packets).flatten());
        start = end;
    }
    assert(index == packet_count(payload@.len() as int));
}

/// Appends the keys that stand before the first characters of pixels.
fn write_rgba_keys(out: &mut Vec<u8>, metadata: &KittyRgbaMetadata<'_>)
    ensures
        final(out)@ == old(out)@ + rgba_keys(*metadata),
{
    broadcast use bytes::group_append;

    push_text(out, "\x1b_Ga=");
    match metadata.action {
        KittyAction::Show => push_text(out, "T"),
        KittyAction::AddFrame => push_text(out, "f"),
    }
    push_text(out, ",f=32,s=");
    push_decimal(out, metadata.width as u64);
    push_text(out, ",v=");
    push_decimal(out, metadata.height as u64);
    if let Some(image_id) = metadata.image_id {
        push_text(out, ",i=");
        push_decimal(out, image_id as u64);
    }
    if let Some(delay_ms) = metadata.frame_delay_ms {
        push_text(out, ",z=");
        push_signed_decimal(out, delay_ms);
    }
    write_kitty_size(out, metadata.config);
}

/// Appends the pixels of an image.
pub fn kitty_rgba(out: &mut Vec<u8>, rgba: &[u8], metadata: KittyRgbaMetadata<'_>)
    requires
        payload::base64_len(rgba@.len() as int) <= usize::MAX,
    ensures
        final(out)@ == old(out)@ + rgba_text(rgba@, metadata),
{
    let payload: Vec<u8> = payload::encode_base64(rgba);
    let ghost packets = |i: int| rgba_packet(payload@, metadata, i);
    let ghost mut index: nat = 0;
    let mut start: usize = 0;
    assert(out@ =~= old(out)@ + Seq::new(0, packets).flatten());
    while start < payload.len()
        invariant
            packets == (|i: int| rgba_packet(payload@, metadata, i)),
            index <= packet_count(payload@.len() as int),
            start == if index * KITTY_CHUNK_BYTES >= payload@.len() {
                payload@.len() as int
            } else {
                index * KITTY_CHUNK_BYTES
            },
            out@ == old(out)@ + Seq::new(index, packets).flatten(),
        decreases payload@.len() - start,
    {
        broadcast use bytes::group_append;

        let end: usize = chunk_end(&payload, start);
        let is_last: bool = end == payload.len();
        let ghost before = out@;
        if start == 0 {
            write_rgba_keys(out, &metadata);
            if !is_last {
                push_text(out, ",m=1");
            }
            push_text(out, ";");
        } else {
            push_text(out, "\x1b_G");
            if metadata.action == KittyAction::AddFrame {
                push_text(out, "a=f,");
            }
            if is_last {
                push_text(out, "m=0;");
            } else {
                push_text(out, "m=1;");
            }
        }
        extend(out, vstd::slice::slice_subrange(payload.as_slice(), start, end));
        push_text(out, "\x1b\\");
        proof {
            assert(out@ == before + packets(index as int));
            bytes::lemma_flatten_next(packets, index);
            index = index + 1;
        }
        start = end;
    }
    assert(index == packet_count(payload@.len() as int));
}

/// Appends frame `index` of an animation.
fn write_frame(out: &mut Vec<u8>, frame: &GifFrame, config: &Config, image_id: u32, index: usize)
    requires
        payload::base64_len(frame.rgba@.len() as int) <= usize::MAX,
    ensures
        final(out)@ == old(out)@ + frame_text(frame@, *config, image_id, index as int),
{
    if index == 0 {
        kitty_rgba(
            out,
            frame.rgba.as_slice(),
            KittyRgbaMetadata {
                action: KittyAction::Show,
                image_id: Some(image_id),
                width: frame.width,
                height: frame.height,
                frame_delay_ms: None,
                config,
            },
        );
        push_text(out, "\x1b_Ga=a,i=");
        push_decimal(out, image_id as u64);
        push_text(out, ",r=1,z=");
        push_signed_decimal(out, frame.delay_ms);
        push_text(out, "\x1b\\");
        assert(out@ =~= old(out)@ + frame_text(frame@, *config, image_id, 0));
    } else {
        kitty_rgba(
            out,
            frame.rgba.as_slice(),
            KittyRgbaMetadata {
                action: KittyAction::AddFrame,
                image_id: Some(image_id),
                width: frame.width,
                height: frame.height,
                frame_delay_ms: Some(frame.delay_ms),
                config,
            },
        );
    }
}

/// The text of frames, frame by frame.
proof fn lemma_frames_text(frames: Seq<ShownFrame>, config: Config, image_id: u32)
    ensures
        frames_text(frames, config, image_id) == Seq::new(
            frames.len(),
            |k: int| frame_text(frames[k], config, image_id, k),
        ).flatten(),
        frames.len() == 0 ==> frames_text(frames, config, image_id).len() == 0,
{
    assert(frames.map(|k: int, frame: ShownFrame| frame_text(frame, config, image_id, k))
        =~= Seq::new(frames.len(), |k: int| frame_text(frames[k], config, image_id, k)));
}

/// Appends the animation of a GIF file under the number `image_id`.
///
/// Where a frame cannot be shown, the frames before it have been appended.
pub fn kitty_gif_frames(out: &mut Vec<u8>, decoded: &[u8], config: &Config, image_id: u32) -> (r:
    Result<(), DecodeError>)
    ensures
        match gif::animation(decoded@, *config) {
            Ok(frames) => {
                &&& r is Ok
                &&& final(out)@ == old(out)@ + animation_text(frames, *config, image_id)
            },
            Err(error) => {
                &&& r == Err::<(), DecodeError>(error)
                &&& final(out)@ == old(out)@ + frames_text(
                    gif::shown_frames(decoded@, *config),
                    *config,
                    image_id,
                )
            },
        },
{
    let mut frames = match GifFrames::open(decoded, config) {
        Ok(frames) => frames,
        Err(error) => {
            proof {
                lemma_frames_text(Seq::empty(), *config, image_id);
            }
            return Err(error);
        },
    };
    let ghost all = frames.ahead();
    let ghost breaks = frames.breaks();
    let ghost pieces = |k: int| frame_text(gif::shown(all[k]), *config, image_id, k);
    let mut index: usize = 0;
    assert(out@ =~= old(out)@ + Seq::new(0, pieces).flatten());
    assert(all.skip(0) =~= all);
    loop
        invariant_except_break
            frames.wf(),
            frames.breaks() == breaks,
            frames.index() == index,
            index <= gif::KITTY_GIF_MAX_FRAMES,
            index <= all.len(),
            frames.ahead() == all.skip(index as int),
            gif::limited_stream(decoded@, *config) == Some((all, breaks)),
            gif::admitted(all, breaks, 0, 0) == gif::admitted(
                frames.ahead(),
                breaks,
                frames.index(),
                frames.total(),
            ),
            gif::shown_count(all, breaks, 0, 0) == index + gif::shown_count(
                frames.ahead(),
                breaks,
                frames.index(),
                frames.total(),
            ),
            pieces == (|k: int| frame_text(gif::shown(all[k]), *config, image_id, k)),
            out@ == old(out)@ + Seq::new(index as nat, pieces).flatten(),
        ensures
            index == all.len(),
            gif::limited_stream(decoded@, *config) == Some((all, breaks)),
            gif::admitted(all, breaks, 0, 0) is Ok,
            out@ == old(out)@ + Seq::new(index as nat, pieces).flatten(),
        decreases frames.ahead().len(),
    {
        match frames.next_frame() {
            Ok(Some(frame)) => {
                write_frame(out, &frame, config, image_id, index);
                proof {
                    bytes::lemma_flatten_next(pieces, index as nat);
                    assert(all.skip(index as int).drop_first() =~= all.skip(index + 1));
                }
                index += 1;
                assert(out@ =~= old(out)@ + Seq::new(index as nat, pieces).flatten());
            },
            Ok(None) => {
                break;
            },
            Err(error) => {
                proof {
                    let shown = all.take(index as int).map_values(
                        |f: gif::FrameData| gif::shown(f),
                    );
                    assert(shown =~= gif::shown_frames(decoded@, *config));
                    lemma_frames_text(shown, *config, image_id);
                    assert(Seq::new(
                        shown.len(),
                        |k: int| frame_text(shown[k], *config, image_id, k),
                    ) =~= Seq::new(index as nat, pieces));
                }
                return Err(error);
            },
        }
    }
    let ghost shown = all.map_values(|f: gif::FrameData| gif::shown(f));
    assert(shown.map(|k: int, frame: ShownFrame| frame_text(frame, *config, image_id, k))
        =~= Seq::new(index as nat, pieces));
    if index > 1 {
        push_text(out, "\x1b_Ga=a,i=");
        push_decimal(out, image_id as u64);
        push_text(out, ",s=3,v=1\x1b\\");
    }
    assert(out@ =~= old(out)@ + animation_text(shown, *config, image_id));
    Ok(())
}

/// Appends a GIF file, or nothing where it cannot be shown as an animation.
pub fn kitty_gif(out: &mut Vec<u8>, decoded: &[u8], config: &Config, ids: &mut ImageIds) -> (r:
    Result<(), DecodeError>)
    ensures
        r is Ok,
        is_drawn(animates(decoded@, *config), old(ids)@, final(ids)@),
        final(out)@ == old(out)@ + gif_text(
            decoded@,
            *config,
            final(ids)@.id(old(ids)@.clock.len() as int),
        ),
{
    let stats = match gif::gif_animation_stats(decoded, config) {
        Ok(stats) => stats,
        Err(_) => {
            assert(out@ =~= old(out)@ + Seq::empty());
            return Ok(());
        },
    };
    if stats.frame_count == 0 {
        assert(out@ =~= old(out)@ + Seq::empty());
        return Ok(());
    }
    let image_id: u32 = ids.next_kitty_image_id();
    kitty_gif_frames(out, decoded, config, image_id)
}

/// Appends an image file, or nothing where it cannot be shown.
pub fn kitty(out: &mut Vec<u8>, decoded: &[u8], config: &Config, ids: &mut ImageIds) -> (r: Result<
    (),
    DecodeError,
>)
    requires
        payload::base64_len(decoded@.len() as int) <= usize::MAX,
    ensures
        r is Ok,
        is_drawn(draws_id(decoded@, *config), old(ids)@, final(ids)@),
        final(out)@ == old(out)@ + kitty_text(
            decoded@,
            *config,
            final(ids)@.id(old(ids)@.clock.len() as int),
        ),
{
    if bytes::starts_with(decoded, &scan::PNG_MAGIC) {
        kitty_png(out, decoded, config);
        return Ok(());
    }
    if scan::is_gif_file(decoded) {
        return kitty_gif(out, decoded, config, ids);
    }
    assert(out@ =~= old(out)@ + Seq::empty());
    Ok(())
}

/// The packets carry the payload, piece by piece and in order.
pub proof fn law_packets_carry_the_payload(payload: Seq<u8>)
    ensures
        Seq::new(packet_count(payload.len() as int), |i: int| chunk(payload, i)).flatten()
            == payload,
{
    let count = packet_count(payload.len() as int);
    if count > 0 {
        lemma_chunks(payload, (count - 1) as nat);
        let pieces = |i: int| chunk(payload, i);
        bytes::lemma_flatten_next(pieces, (count - 1) as nat);
        assert(payload.take((count - 1) * KITTY_CHUNK_BYTES) + chunk(payload, count - 1)
            =~= payload);
    } else {
        assert(payload =~= Seq::empty());
    }
}

/// The first packets carry the start of the payload.
proof fn lemma_chunks(payload: Seq<u8>, n: nat)
    requires
        n < packet_count(payload.len() as int),
    ensures
        Seq::new(n, |i: int| chunk(payload, i)).flatten() == payload.take(n * KITTY_CHUNK_BYTES),
    decreases n,
{
    let pieces = |i: int| chunk(payload, i);
    if n > 0 {
        lemma_chunks(payload, (n - 1) as nat);
        bytes::lemma_flatten_next(pieces, (n - 1) as nat);
        assert(payload.take((n - 1) * KITTY_CHUNK_BYTES) + chunk(payload, n - 1) =~= payload.take(
            n * KITTY_CHUNK_BYTES,
        ));
    } else {
        assert(Seq::new(0, pieces).flatten() =~= payload.take(0));
    }
}

/// A packet carries at least one character and at most as many as are allowed, and only the
/// packet at the end is the last one. All others carry as many as are allowed.
pub proof fn law_packets_are_small(payload: Seq<u8>, i: int)
    requires
        0 <= i < packet_count(payload.len() as int),
    ensures
        1 <= chunk(payload, i).len() <= KITTY_CHUNK_BYTES,
        i < packet_count(payload.len() as int) - 1 ==> chunk(payload, i).len() == 4096,
        is_last_packet(payload.len() as int, i) <==> i == packet_count(payload.len() as int) - 1,
{
}

/// A terminal that puts the packets of a PNG file together and decodes them has the file.
pub proof fn law_files_arrive_whole(decoded: Seq<u8>)
    ensures
        ({
            let payload = payload::base64(decoded);
            let count = packet_count(payload.len() as int);
            payload::unbase64(Seq::new(count, |i: int| chunk(payload, i)).flatten()) == decoded
        }),
{
    law_packets_carry_the_payload(payload::base64(decoded));
    payload::law_base64_is_reversible(decoded);
}

/// `,i=`, which stands before an image number.
pub const ID_KEY: [u8; 3] = [0x2c, 0x69, 0x3d];

/// The first place from `from` on at which `,i=` stands, or the end.
pub open spec fn id_key_from(text: Seq<u8>, from: int) -> int
    decreases text.len() - from,
{
    if from >= text.len() || bytes::occurs_at(text, ID_KEY@, from) {
        from
    } else {
        id_key_from(text, from + 1)
    }
}

/// The number after the first `,i=` of a text.
pub open spec fn shown_id(text: Seq<u8>) -> int {
    let at = id_key_from(text, 0) + 3;
    bytes::number(text.subrange(at, bytes::digits_end(text, at)))
}

proof fn lemma_id_key_from(text: Seq<u8>, from: int, at: int)
    requires
        0 <= from <= at < text.len(),
        bytes::occurs_at(text, ID_KEY@, at),
        forall|i: int| from <= i < at ==> !bytes::occurs_at(text, ID_KEY@, i),
    ensures
        id_key_from(text, from) == at,
    decreases at - from,
{
    if from < at {
        assert(!bytes::occurs_at(text, ID_KEY@, from));
        lemma_id_key_from(text, from + 1, at);
    }
}

/// A number after the first `,i=` is read as it was written.
proof fn lemma_shown_id(head: Seq<u8>, id: nat, tail: Seq<u8>)
    requires
        !head.contains(ID_KEY[1]),
        tail.len() > 0,
        !bytes::is_digit(tail[0]),
    ensures
        shown_id(head + ID_KEY@ + bytes::decimal(id) + tail) == id,
{
    let digits = bytes::decimal(id);
    let text = head + ID_KEY@ + digits + tail;
    let at = head.len() as int;
    assert(text.subrange(at, at + 3) =~= ID_KEY@);
    assert forall|i: int| 0 <= i < at implies !bytes::occurs_at(text, ID_KEY@, i) by {
        if bytes::occurs_at(text, ID_KEY@, i) {
            assert(text.subrange(i, i + 3)[1] == ID_KEY[1]);
            if i + 1 < at {
                assert(head.contains(head[i + 1]));
            } else {
                assert(text[at] == ID_KEY[0]);
            }
        }
    }
    lemma_id_key_from(text, 0, at);
    bytes::lemma_decimal(id);
    let end = at + 3 + digits.len();
    assert forall|i: int| at + 3 <= i < end implies bytes::is_digit(#[trigger] text[i]) by {
        assert(text[i] == digits[i - at - 3]);
    }
    assert(text[end] == tail[0]);
    bytes::lemma_digits_end_is(text, at + 3, end);
    assert(text.subrange(at + 3, end) =~= digits);
}

/// What stands before the number in the keys of an image.
pub open spec fn keys_head(width: nat, height: nat) -> Seq<u8> {
    bytes::text("\x1b_Ga=") + bytes::text("T") + bytes::text(",f=32,s=") + bytes::decimal(width)
        + bytes::text(",v=") + bytes::decimal(height)
}

proof fn lemma_keys_head(width: nat, height: nat)
    ensures
        !keys_head(width, height).contains(ID_KEY[1]),
        bytes::text(",i=") == ID_KEY@,
{
    broadcast use bytes::lemma_lacks_joined;

    reveal_strlit("\x1b_Ga=");
    reveal_strlit("T");
    reveal_strlit(",f=32,s=");
    reveal_strlit(",v=");
    reveal_strlit(",i=");
    vstd::utf8::is_ascii_chars_encode_utf8("\x1b_Ga="@);
    vstd::utf8::is_ascii_chars_encode_utf8("T"@);
    vstd::utf8::is_ascii_chars_encode_utf8(",f=32,s="@);
    vstd::utf8::is_ascii_chars_encode_utf8(",v="@);
    vstd::utf8::is_ascii_chars_encode_utf8(",i="@);
    let b = ID_KEY[1];
    assert(!bytes::text("\x1b_Ga=").contains(b));
    assert(!bytes::text("T").contains(b));
    assert(!bytes::text(",f=32,s=").contains(b));
    assert(!bytes::text(",v=").contains(b));
    bytes::lemma_decimal_digits(width, b);
    bytes::lemma_decimal_digits(height, b);
    assert(bytes::text(",i=") =~= ID_KEY@);
}

/// No digit stands where the keys for the size or for more packets may start.
proof fn lemma_keys_tail(config: Config, more: Seq<u8>, rest: Seq<u8>)
    requires
        more.len() == 0 || more == bytes::text(",m=1"),
    ensures
        ({
            let tail = size_text(config) + more + bytes::text(";") + rest;
            tail.len() > 0 && !bytes::is_digit(tail[0])
        }),
{
    reveal_strlit(",w=");
    reveal_strlit(",h=");
    reveal_strlit(",m=1");
    reveal_strlit(";");
    vstd::utf8::is_ascii_chars_encode_utf8(",w="@);
    vstd::utf8::is_ascii_chars_encode_utf8(",h="@);
    vstd::utf8::is_ascii_chars_encode_utf8(",m=1"@);
    vstd::utf8::is_ascii_chars_encode_utf8(";"@);
    let tail = size_text(config) + more + bytes::text(";") + rest;
    let first = if size_text(config).len() > 0 {
        size_text(config)[0]
    } else if more.len() > 0 {
        more[0]
    } else {
        bytes::text(";")[0]
    };
    assert(tail[0] == first);
}

/// The first packet of an image shows its number, whatever follows.
proof fn lemma_first_packet_shows_id(
    payload: Seq<u8>,
    meta: KittyRgbaMetadata<'_>,
    id: u32,
    rest: Seq<u8>,
)
    requires
        meta.action == KittyAction::Show,
        meta.image_id == Some(id),
        meta.frame_delay_ms is None,
    ensures
        shown_id(rgba_packet(payload, meta, 0) + rest) == id,
{
    broadcast use bytes::group_append;

    let (w, h) = (meta.width as nat, meta.height as nat);
    let more = if is_last_packet(payload.len() as int, 0) {
        Seq::empty()
    } else {
        bytes::text(",m=1")
    };
    let after = chunk(payload, 0) + bytes::text("\x1b\\") + rest;
    let tail = size_text(*meta.config) + more + bytes::text(";") + after;
    lemma_keys_head(w, h);
    lemma_keys_tail(*meta.config, more, after);
    assert(rgba_keys(meta) == keys_head(w, h) + ID_KEY@ + bytes::decimal(id as nat) + size_text(
        *meta.config,
    ));
    assert(rgba_packet(payload, meta, 0) + rest == keys_head(w, h) + ID_KEY@ + bytes::decimal(
        id as nat,
    ) + tail);
    lemma_shown_id(keys_head(w, h), id as nat, tail);
}

/// The command for the delay of a frame shows its number, whatever follows.
proof fn lemma_delay_shows_id(id: u32, rest: Seq<u8>)
    ensures
        shown_id(
            bytes::text("\x1b_Ga=a,i=") + bytes::decimal(id as nat) + bytes::text(",r=1,z=") + rest,
        ) == id,
{
    broadcast use bytes::group_append;

    reveal_strlit("\x1b_Ga=a,i=");
    reveal_strlit(",r=1,z=");
    vstd::utf8::is_ascii_chars_encode_utf8("\x1b_Ga=a,i="@);
    vstd::utf8::is_ascii_chars_encode_utf8(",r=1,z="@);
    let head = seq![0x1bu8, 0x5f, 0x47, 0x61, 0x3d, 0x61];
    assert(bytes::text("\x1b_Ga=a,i=") =~= head + ID_KEY@);
    assert(bytes::text(",r=1,z=")[0] == 0x2c);
    lemma_shown_id(head, id as nat, bytes::text(",r=1,z=") + rest);
}

/// The first frame of an animation shows its number, whatever follows.
proof fn lemma_first_frame_shows_id(frame: ShownFrame, config: Config, id: u32, rest: Seq<u8>)
    ensures
        shown_id(frame_text(frame, config, id, 0) + rest) == id,
{
    broadcast use bytes::group_append;

    let meta = KittyRgbaMetadata {
        action: KittyAction::Show,
        image_id: Some(id),
        width: frame.width,
        height: frame.height,
        frame_delay_ms: None,
        config: &config,
    };
    let payload = payload::base64(frame.rgba);
    let count = packet_count(payload.len() as int);
    let packets = Seq::new(count, |i: int| rgba_packet(payload, meta, i));
    assert(rgba_text(frame.rgba, meta) == packets.flatten());
    let delay = bytes::signed_decimal(frame.delay_ms as int) + bytes::text("\x1b\\") + rest;
    let start = bytes::text("\x1b_Ga=a,i=") + bytes::decimal(id as nat) + bytes::text(",r=1,z=")
        + delay;
    let text = frame_text(frame, config, id, 0) + rest;
    assert(text == packets.flatten() + start);
    if count > 0 {
        assert(packets.flatten() == packets.first() + packets.drop_first().flatten());
        assert(packets.first() == rgba_packet(payload, meta, 0));
        lemma_first_packet_shows_id(payload, meta, id, packets.drop_first().flatten() + start);
    } else {
        assert(packets.flatten() =~= Seq::empty());
        assert(Seq::<u8>::empty() + start =~= start);
        lemma_delay_shows_id(id, delay);
    }
}

/// The first number that a shown animation tells is its own.
pub proof fn law_animations_tell_their_id(decoded: Seq<u8>, config: Config, id: u32)
    requires
        animates(decoded, config),
    ensures
        shown_id(gif_text(decoded, config, id)) == id,
{
    let frames = gif::animation(decoded, config)->Ok_0;
    let texts = frames.map(|k: int, frame: ShownFrame| frame_text(frame, config, id, k));
    let start = if frames.len() > 1 {
        bytes::text("\x1b_Ga=a,i=") + bytes::decimal(id as nat) + bytes::text(",s=3,v=1\x1b\\")
    } else {
        Seq::empty()
    };
    let rest = texts.drop_first().flatten() + start;
    assert(texts.first() == frame_text(frames[0], config, id, 0));
    assert(texts.flatten() =~= texts.first() + texts.drop_first().flatten());
    assert(gif_text(decoded, config, id) =~= frame_text(frames[0], config, id, 0) + rest);
    lemma_first_frame_shows_id(frames[0], config, id, rest);
}

/// Something is written for a shown animation.
pub proof fn lemma_animation_is_not_empty(decoded: Seq<u8>, config: Config, id: u32)
    requires
        animates(decoded, config),
    ensures
        gif_text(decoded, config, id).len() > 0,
{
    let frames = gif::animation(decoded, config)->Ok_0;
    let texts = frames.map(|k: int, frame: ShownFrame| frame_text(frame, config, id, k));
    assert(texts.first() == frame_text(frames[0], config, id, 0));
    assert(texts.flatten() =~= texts.first() + texts.drop_first().flatten());
    bytes::lemma_decimal_last(id as nat);
}

/// The keys for the size at which an image is shown.
spec fn width_key(config: Config) -> KeyValue {
    KeyValue {
        name: 0x77,
        value: match config.max_pixels_w {
            Some(width) => Some(bytes::decimal(width as nat)),
            None => None,
        },
    }
}

spec fn height_key(config: Config) -> KeyValue {
    KeyValue {
        name: 0x68,
        value: match config.max_pixels_h {
            Some(height) => Some(bytes::decimal(height as nat)),
            None => None,
        },
    }
}

/// A key with a value.
spec fn key_value(name: u8, value: Seq<u8>) -> KeyValue {
    KeyValue { name, value: Some(value) }
}

/// The key that says whether more packets follow.
spec fn more_key(last: bool) -> KeyValue {
    key_value(
        0x6d,
        if last {
            seq![0x30u8]
        } else {
            seq![0x31u8]
        },
    )
}

/// The keys before the first characters of pixels, after the action.
spec fn pixel_keys(meta: KittyRgbaMetadata<'_>, last: bool) -> Seq<KeyValue> {
    seq![
        key_value(0x66, seq![0x33u8, 0x32]),
        key_value(0x73, bytes::decimal(meta.width as nat)),
        key_value(0x76, bytes::decimal(meta.height as nat)),
        KeyValue {
            name: 0x69,
            value: match meta.image_id {
                Some(id) => Some(bytes::decimal(id as nat)),
                None => None,
            },
        },
        KeyValue {
            name: 0x7a,
            value: match meta.frame_delay_ms {
                Some(delay) => Some(bytes::signed_decimal(delay as int)),
                None => None,
            },
        },
        width_key(*meta.config),
        height_key(*meta.config),
        KeyValue {
            name: 0x6d,
            value: if last {
                None
            } else {
                Some(seq![0x31u8])
            },
        },
    ]
}

/// The name of an action.
spec fn action_name(action: KittyAction) -> Seq<u8> {
    match action {
        KittyAction::Show => seq![0x54u8],
        KittyAction::AddFrame => seq![0x66u8],
    }
}

/// The first key of packet `i` of pixels, and the others.
spec fn packet_keys(meta: KittyRgbaMetadata<'_>, last: bool, i: int) -> (KeyValue, Seq<KeyValue>) {
    if i == 0 {
        (key_value(0x61, action_name(meta.action)), pixel_keys(meta, last))
    } else if meta.action == KittyAction::AddFrame {
        (key_value(0x61, seq![0x66u8]), seq![more_key(last)])
    } else {
        (more_key(last), Seq::empty())
    }
}

/// Keys as they are written.
spec fn list_text(keys: (KeyValue, Seq<KeyValue>)) -> Seq<u8> {
    seq![keys.0.name, terminal::EQUALS] + keys.0.value->Some_0 + terminal::keys_text(
        keys.1,
        keys.1.len(),
    )
}

/// Keys can be told apart in a packet.
spec fn are_clear(keys: (KeyValue, Seq<KeyValue>)) -> bool {
    &&& keys.0.value is Some
    &&& keys.0.lacks(terminal::COMMA)
    &&& keys.0.lacks(terminal::SEMICOLON)
    &&& keys.0.lacks(terminal::ESCAPE)
    &&& keys.0.name != terminal::EQUALS
    &&& terminal::all_lack(keys.1, terminal::COMMA)
    &&& terminal::all_lack(keys.1, terminal::SEMICOLON)
    &&& terminal::all_lack(keys.1, terminal::ESCAPE)
    &&& forall|i: int|
        0 <= i < keys.1.len() ==> (#[trigger] keys.1[i]).name != terminal::EQUALS
}

/// What stands in a packet with these keys and a part of an image.
spec fn body_text(keys: (KeyValue, Seq<KeyValue>), part: Seq<u8>) -> Seq<u8> {
    list_text(keys) + seq![terminal::SEMICOLON] + part
}

/// A packet is read as it was written.
proof fn lemma_body_is_read(keys: (KeyValue, Seq<KeyValue>), part: Seq<u8>, name: u8)
    requires
        are_clear(keys),
        !part.contains(terminal::ESCAPE),
        name != terminal::EQUALS,
    ensures
        !body_text(keys, part).contains(terminal::ESCAPE),
        !list_text(keys).contains(terminal::ESCAPE),
        terminal::packet_of(body_text(keys, part)).payload == part,
        terminal::key(terminal::packet_of(body_text(keys, part)), name) == if keys.0.name == name {
            keys.0.value
        } else {
            terminal::key_named(keys.1, keys.1.len(), name)
        },
        terminal::packet_of(list_text(keys)).payload == Seq::<u8>::empty(),
        terminal::key(terminal::packet_of(list_text(keys)), name) == if keys.0.name == name {
            keys.0.value
        } else {
            terminal::key_named(keys.1, keys.1.len(), name)
        },
{
    let list = list_text(keys);
    let first = seq![keys.0.name, terminal::EQUALS];
    let value = keys.0.value->Some_0;
    let others = terminal::keys_text(keys.1, keys.1.len());
    terminal::lemma_keys_are_read(keys.0, keys.1, name);
    assert forall|byte: u8|
        byte == terminal::SEMICOLON || byte == terminal::ESCAPE implies !(#[trigger] list.contains(
        byte,
    )) by {
        terminal::lemma_keys_lack(keys.1, keys.1.len(), byte);
        assert(!first.contains(byte));
        bytes::lemma_lacks_joined(first, value, byte);
        bytes::lemma_lacks_joined(first + value, others, byte);
    }
    terminal::lemma_packet_of(list, part);
    let semicolon = seq![terminal::SEMICOLON];
    assert(!semicolon.contains(terminal::ESCAPE));
    bytes::lemma_lacks_joined(list, semicolon, terminal::ESCAPE);
    bytes::lemma_lacks_joined(list + semicolon, part, terminal::ESCAPE);
}

/// The names of keys.
spec fn key_names(keys: (KeyValue, Seq<KeyValue>)) -> Seq<u8> {
    seq![keys.0.name] + keys.1.map_values(|key: KeyValue| key.name)
}

/// A packet has no keys but those that were written.
proof fn lemma_body_has_only(keys: (KeyValue, Seq<KeyValue>), part: Seq<u8>)
    requires
        are_clear(keys),
        !part.contains(terminal::ESCAPE),
    ensures
        terminal::has_only(terminal::packet_of(body_text(keys, part)), key_names(keys)),
        terminal::has_only(terminal::packet_of(list_text(keys)), key_names(keys)),
{
    let list = list_text(keys);
    let names = key_names(keys);
    assert(!list.contains(terminal::SEMICOLON)) by {
        let first = seq![keys.0.name, terminal::EQUALS];
        terminal::lemma_keys_lack(keys.1, keys.1.len(), terminal::SEMICOLON);
        assert(!first.contains(terminal::SEMICOLON));
        bytes::lemma_lacks_joined(first, keys.0.value->Some_0, terminal::SEMICOLON);
        bytes::lemma_lacks_joined(
            first + keys.0.value->Some_0,
            terminal::keys_text(keys.1, keys.1.len()),
            terminal::SEMICOLON,
        );
    }
    terminal::lemma_packet_of(list, part);
    assert forall|name: Seq<u8>|
        !name.contains(terminal::EQUALS) && (#[trigger] terminal::value_of(
            list,
            terminal::COMMA,
            name,
        )) is Some implies name.len() == 1 && names.contains(name[0]) by {
        terminal::lemma_only_keys_are_read(keys.0, keys.1, name);
        if name == seq![keys.0.name] {
            assert(names[0] == name[0]);
        } else {
            let i = choose|i: int|
                0 <= i < keys.1.len() && name == seq![(#[trigger] keys.1[i]).name]
                    && keys.1[i].value is Some;
            assert(names[i + 1] == name[0]);
        }
    }
}

/// No separator stands in a number.
proof fn lemma_number_is_clear(n: int, byte: u8)
    requires
        byte == terminal::COMMA || byte == terminal::SEMICOLON || byte == terminal::ESCAPE,
    ensures
        !bytes::signed_decimal(n).contains(byte),
        n >= 0 ==> !bytes::decimal(n as nat).contains(byte),
{
    if n < 0 {
        bytes::lemma_decimal_digits((-n) as nat, byte);
        assert(!seq![bytes::MINUS].contains(byte));
        bytes::lemma_lacks_joined(seq![bytes::MINUS], bytes::decimal((-n) as nat), byte);
    } else {
        bytes::lemma_decimal_digits(n as nat, byte);
    }
}

/// The keys of pixels can be told apart.
proof fn lemma_packet_keys_are_clear(meta: KittyRgbaMetadata<'_>, last: bool, i: int)
    ensures
        are_clear(packet_keys(meta, last, i)),
{
    let keys = packet_keys(meta, last, i);
    assert forall|byte: u8|
        byte == terminal::COMMA || byte == terminal::SEMICOLON || byte
            == terminal::ESCAPE implies #[trigger] terminal::all_lack(keys.1, byte) && keys.0.lacks(
        byte,
    ) by {
        lemma_number_is_clear(meta.width as int, byte);
        lemma_number_is_clear(meta.height as int, byte);
        if let Some(id) = meta.image_id {
            lemma_number_is_clear(id as int, byte);
        }
        if let Some(delay) = meta.frame_delay_ms {
            lemma_number_is_clear(delay as int, byte);
        }
        lemma_size_is_clear(*meta.config, byte);
        assert(!seq![0x33u8, 0x32].contains(byte));
        assert(!seq![0x30u8].contains(byte));
        assert(!seq![0x31u8].contains(byte));
        assert(!seq![0x66u8].contains(byte));
        assert(!seq![0x54u8].contains(byte));
    }
}

proof fn lemma_size_is_clear(config: Config, byte: u8)
    requires
        byte == terminal::COMMA || byte == terminal::SEMICOLON || byte == terminal::ESCAPE,
    ensures
        width_key(config).lacks(byte),
        height_key(config).lacks(byte),
{
    if let Some(width) = config.max_pixels_w {
        lemma_number_is_clear(width as int, byte);
    }
    if let Some(height) = config.max_pixels_h {
        lemma_number_is_clear(height as int, byte);
    }
}

/// The pieces that keys are written with.
proof fn lemma_key_pieces()
    ensures
        bytes::text("\x1b_Ga=") == seq![terminal::ESCAPE, 0x5fu8, 0x47] + seq![
            0x61u8,
            terminal::EQUALS,
        ],
        bytes::text("\x1b_G") == seq![terminal::ESCAPE, 0x5fu8, 0x47],
        bytes::text("T") == seq![0x54u8],
        bytes::text("f") == seq![0x66u8],
        bytes::text(",f=32,s=") == seq![terminal::COMMA, 0x66u8, terminal::EQUALS] + seq![
            0x33u8,
            0x32,
        ] + seq![terminal::COMMA, 0x73u8, terminal::EQUALS],
        bytes::text(",v=") == seq![terminal::COMMA, 0x76u8, terminal::EQUALS],
        bytes::text(",i=") == seq![terminal::COMMA, 0x69u8, terminal::EQUALS],
        bytes::text(",z=") == seq![terminal::COMMA, 0x7au8, terminal::EQUALS],
        bytes::text(",w=") == seq![terminal::COMMA, 0x77u8, terminal::EQUALS],
        bytes::text(",h=") == seq![terminal::COMMA, 0x68u8, terminal::EQUALS],
        bytes::text(",m=1") == seq![terminal::COMMA, 0x6du8, terminal::EQUALS] + seq![0x31u8],
        bytes::text(";") == seq![terminal::SEMICOLON],
        bytes::text("\x1b\\") == seq![terminal::ESCAPE, terminal::BACKSLASH],
        bytes::text("a=f,") == seq![0x61u8, terminal::EQUALS] + seq![0x66u8] + seq![
            terminal::COMMA,
        ],
        bytes::text("m=0;") == seq![0x6du8, terminal::EQUALS] + seq![0x30u8] + seq![
            terminal::SEMICOLON,
        ],
        bytes::text("m=1;") == seq![0x6du8, terminal::EQUALS] + seq![0x31u8] + seq![
            terminal::SEMICOLON,
        ],
{
    reveal_strlit("\x1b_Ga=");
    reveal_strlit("\x1b_G");
    reveal_strlit("T");
    reveal_strlit("f");
    reveal_strlit(",f=32,s=");
    reveal_strlit(",v=");
    reveal_strlit(",i=");
    reveal_strlit(",z=");
    reveal_strlit(",w=");
    reveal_strlit(",h=");
    reveal_strlit(",m=1");
    reveal_strlit(";");
    reveal_strlit("\x1b\\");
    reveal_strlit("a=f,");
    reveal_strlit("m=0;");
    reveal_strlit("m=1;");
    vstd::utf8::is_ascii_chars_encode_utf8("\x1b_Ga="@);
    vstd::utf8::is_ascii_chars_encode_utf8("\x1b_G"@);
    vstd::utf8::is_ascii_chars_encode_utf8("T"@);
    vstd::utf8::is_ascii_chars_encode_utf8("f"@);
    vstd::utf8::is_ascii_chars_encode_utf8(",f=32,s="@);
    vstd::utf8::is_ascii_chars_encode_utf8(",v="@);
    vstd::utf8::is_ascii_chars_encode_utf8(",i="@);
    vstd::utf8::is_ascii_chars_encode_utf8(",z="@);
    vstd::utf8::is_ascii_chars_encode_utf8(",w="@);
    vstd::utf8::is_ascii_chars_encode_utf8(",h="@);
    vstd::utf8::is_ascii_chars_encode_utf8(",m=1"@);
    vstd::utf8::is_ascii_chars_encode_utf8(";"@);
    vstd::utf8::is_ascii_chars_encode_utf8("\x1b\\"@);
    vstd::utf8::is_ascii_chars_encode_utf8("a=f,"@);
    vstd::utf8::is_ascii_chars_encode_utf8("m=0;"@);
    vstd::utf8::is_ascii_chars_encode_utf8("m=1;"@);
}

/// The keys for the size as they are written.
proof fn lemma_size_text(config: Config)
    ensures
        size_text(config) == width_key(config).text() + height_key(config).text(),
{
    lemma_key_pieces();
}

/// Brackets around appended parts do not matter.
#[verifier::spinoff_prover]
proof fn lemma_brackets(
    lead: Seq<u8>,
    a: (Seq<u8>, Seq<u8>),
    f: Seq<u8>,
    s: (Seq<u8>, Seq<u8>),
    v: (Seq<u8>, Seq<u8>),
    more: (Seq<u8>, Seq<u8>, Seq<u8>, Seq<u8>, Seq<u8>),
)
    ensures
        (lead + a.0) + a.1 + (f + s.0) + s.1 + v.0 + v.1 + more.0 + more.1 + (more.2 + more.3)
            + more.4 == lead + (a.0 + a.1 + (f + (s.0 + s.1) + (v.0 + v.1) + more.0 + more.1
            + more.2 + more.3 + more.4)),
{
    broadcast use bytes::lemma_append_parts;

}

/// The keys before the first characters of pixels, key by key.
proof fn lemma_first_keys(meta: KittyRgbaMetadata<'_>, last: bool)
    ensures
        rgba_keys(meta) + (if last {
            Seq::empty()
        } else {
            bytes::text(",m=1")
        }) == seq![terminal::ESCAPE, 0x5fu8, 0x47] + list_text(packet_keys(meta, last, 0)),
{
    let others = pixel_keys(meta, last);
    let c = |name: u8| seq![terminal::COMMA, name, terminal::EQUALS];
    lemma_key_pieces();
    lemma_size_text(*meta.config);
    lemma_keys_text_of_pixels(others);
    lemma_brackets(
        seq![terminal::ESCAPE, 0x5fu8, 0x47],
        (seq![0x61u8, terminal::EQUALS], action_name(meta.action)),
        c(0x66) + seq![0x33u8, 0x32],
        (c(0x73), bytes::decimal(meta.width as nat)),
        (c(0x76), bytes::decimal(meta.height as nat)),
        (
            others[3].text(),
            others[4].text(),
            others[5].text(),
            others[6].text(),
            others[7].text(),
        ),
    );
}

/// Eight keys one after the other.
proof fn lemma_keys_text_of_pixels(keys: Seq<KeyValue>)
    requires
        keys.len() == 8,
    ensures
        terminal::keys_text(keys, 8) == keys[0].text() + keys[1].text() + keys[2].text()
            + keys[3].text() + keys[4].text() + keys[5].text() + keys[6].text() + keys[7].text(),
{
    reveal_with_fuel(terminal::keys_text, 9);
    assert(Seq::<u8>::empty() + keys[0].text() =~= keys[0].text());
}

/// A packet of pixels, key by key.
proof fn lemma_rgba_packet(payload: Seq<u8>, meta: KittyRgbaMetadata<'_>, i: int)
    ensures
        rgba_packet(payload, meta, i) == terminal::packet_text(
            body_text(
                packet_keys(meta, is_last_packet(payload.len() as int, i), i),
                chunk(payload, i),
            ),
        ),
{
    let last = is_last_packet(payload.len() as int, i);
    let keys = packet_keys(meta, last, i);
    let lead = seq![terminal::ESCAPE, 0x5fu8, 0x47];
    lemma_key_pieces();
    if i == 0 {
        lemma_first_keys(meta, last);
        assert(rgba_packet(payload, meta, 0) =~= terminal::packet_text(
            body_text(keys, chunk(payload, 0)),
        ));
    } else {
        reveal_with_fuel(terminal::keys_text, 2);
        if meta.action == KittyAction::AddFrame {
            assert(keys.1[0] == more_key(last));
        }
        assert(rgba_packet(payload, meta, i) =~= terminal::packet_text(
            body_text(keys, chunk(payload, i)),
        ));
    }
}

/// No escape character stands in a part of base64 text.
proof fn lemma_chunk_is_clear(bytes: Seq<u8>, i: int)
    requires
        0 <= i < packet_count(payload::base64(bytes).len() as int),
    ensures
        !chunk(payload::base64(bytes), i).contains(terminal::ESCAPE),
{
    let payload = payload::base64(bytes);
    let part = chunk(payload, i);
    if part.contains(terminal::ESCAPE) {
        let k = choose|k: int| 0 <= k < part.len() && part[k] == terminal::ESCAPE;
        assert(part[k] == payload[i * KITTY_CHUNK_BYTES + k]);
        payload::law_base64_is_printable(bytes, i * KITTY_CHUNK_BYTES + k);
    }
}

/// The packets of pixels as a terminal reads them.
#[verifier::opaque]
spec fn pixel_packets(rgba: Seq<u8>, meta: KittyRgbaMetadata<'_>) -> Seq<terminal::Packet> {
    let payload = payload::base64(rgba);
    let len = payload.len() as int;
    Seq::new(
        packet_count(len),
        |i: int|
            terminal::packet_of(
                body_text(packet_keys(meta, is_last_packet(len, i), i), chunk(payload, i)),
            ),
    )
}

/// A terminal reads the packets of pixels one by one, and they carry the pixels.
proof fn lemma_pixel_packets(rgba: Seq<u8>, meta: KittyRgbaMetadata<'_>)
    ensures
        terminal::packets(rgba_text(rgba, meta)) == Some(pixel_packets(rgba, meta)),
        payload::unbase64(terminal::carried(pixel_packets(rgba, meta))) == rgba,
        pixel_packets(rgba, meta).len() == packet_count(payload::base64(rgba).len() as int),
{
    reveal(pixel_packets);
    let payload = payload::base64(rgba);
    let len = payload.len() as int;
    let count = packet_count(len);
    let bodies = |i: int|
        body_text(packet_keys(meta, is_last_packet(len, i), i), chunk(payload, i));
    let read = pixel_packets(rgba, meta);
    assert forall|i: int| 0 <= i < count implies {
        &&& !(#[trigger] bodies(i)).contains(terminal::ESCAPE)
        &&& rgba_packet(payload, meta, i) == terminal::packet_text(bodies(i))
        &&& read[i].payload == chunk(payload, i)
    } by {
        lemma_rgba_packet(payload, meta, i);
        lemma_packet_keys_are_clear(meta, is_last_packet(len, i), i);
        lemma_chunk_is_clear(rgba, i);
        lemma_body_is_read(
            packet_keys(meta, is_last_packet(len, i), i),
            chunk(payload, i),
            0x61,
        );
        assert(read[i] == terminal::packet_of(bodies(i)));
    }
    terminal::lemma_packets_in_a_row(bodies, count);
    assert(Seq::new(count, |i: int| rgba_packet(payload, meta, i)) =~= Seq::new(
        count,
        |i: int| terminal::packet_text(bodies(i)),
    ));
    assert(Seq::new(count, |i: int| terminal::packet_of(bodies(i))) =~= read);
    assert(read.map_values(|packet: terminal::Packet| packet.payload) =~= Seq::new(
        count,
        |i: int| chunk(payload, i),
    )) by {
        assert forall|i: int| 0 <= i < count implies read[i].payload == chunk(payload, i) by {
            assert(!bodies(i).contains(terminal::ESCAPE));
        }
    }
    law_packets_carry_the_payload(payload);
    payload::law_base64_is_reversible(rgba);
}

/// The keys of a packet of pixels as a terminal reads them.
proof fn lemma_pixel_keys(rgba: Seq<u8>, meta: KittyRgbaMetadata<'_>, i: int, name: u8)
    requires
        0 <= i < pixel_packets(rgba, meta).len(),
        name != terminal::EQUALS,
    ensures
        ({
            let last = i == pixel_packets(rgba, meta).len() - 1;
            let keys = packet_keys(meta, last, i);
            terminal::key(pixel_packets(rgba, meta)[i], name) == if keys.0.name == name {
                keys.0.value
            } else {
                terminal::key_named(keys.1, keys.1.len(), name)
            }
        }),
        1 <= pixel_packets(rgba, meta)[i].payload.len() <= 4096,
        i < pixel_packets(rgba, meta).len() - 1 ==> pixel_packets(rgba, meta)[i].payload.len()
            == 4096,
{
    reveal(pixel_packets);
    let payload = payload::base64(rgba);
    let len = payload.len() as int;
    let last = is_last_packet(len, i);
    law_packets_are_small(payload, i);
    lemma_packet_keys_are_clear(meta, last, i);
    lemma_chunk_is_clear(rgba, i);
    lemma_body_is_read(packet_keys(meta, last, i), chunk(payload, i), name);
}

/// The keys that a packet of pixels may have.
pub open spec fn pixel_key_names() -> Seq<u8> {
    seq![0x61u8, 0x66, 0x73, 0x76, 0x69, 0x7a, 0x77, 0x68, 0x6d]
}

/// A packet of pixels has no other keys.
proof fn lemma_pixels_have_only(rgba: Seq<u8>, meta: KittyRgbaMetadata<'_>, i: int)
    requires
        0 <= i < pixel_packets(rgba, meta).len(),
    ensures
        terminal::has_only(pixel_packets(rgba, meta)[i], pixel_key_names()),
        i > 0 ==> terminal::has_only(pixel_packets(rgba, meta)[i], seq![0x61u8, 0x6d]),
{
    reveal(pixel_packets);
    let payload = payload::base64(rgba);
    let last = is_last_packet(payload.len() as int, i);
    let keys = packet_keys(meta, last, i);
    let packet = pixel_packets(rgba, meta)[i];
    let names = pixel_key_names();
    lemma_packet_keys_are_clear(meta, last, i);
    lemma_chunk_is_clear(rgba, i);
    lemma_body_has_only(keys, chunk(payload, i));
    assert(names[0] == 0x61 && names[1] == 0x66 && names[2] == 0x73 && names[3] == 0x76 && names[4]
        == 0x69 && names[5] == 0x7a && names[6] == 0x77 && names[7] == 0x68 && names[8] == 0x6d);
    assert forall|k: int| 0 <= k < key_names(keys).len() implies names.contains(
        #[trigger] key_names(keys)[k],
    ) by {
        if i == 0 {
            assert(key_names(keys)[k] == names[k]);
        }
    }
    terminal::lemma_has_only(packet, key_names(keys), names);
    if i > 0 {
        let few = seq![0x61u8, 0x6d];
        assert(few[0] == 0x61 && few[1] == 0x6d);
        terminal::lemma_has_only(packet, key_names(keys), few);
    }
}

/// The values of the keys of pixels.
proof fn lemma_pixel_key_values(meta: KittyRgbaMetadata<'_>, last: bool)
    ensures
        ({
            let keys = pixel_keys(meta, last);
            &&& keys.len() == 8
            &&& terminal::key_named(keys, 8, 0x66) == keys[0].value
            &&& terminal::key_named(keys, 8, 0x73) == keys[1].value
            &&& terminal::key_named(keys, 8, 0x76) == keys[2].value
            &&& terminal::key_named(keys, 8, 0x69) == keys[3].value
            &&& terminal::key_named(keys, 8, 0x7a) == keys[4].value
            &&& terminal::key_named(keys, 8, 0x77) == keys[5].value
            &&& terminal::key_named(keys, 8, 0x68) == keys[6].value
            &&& terminal::key_named(keys, 8, 0x6d) == keys[7].value
        }),
{
    reveal_with_fuel(terminal::key_named, 9);
}

/// A number of the settings is told by its key.
proof fn lemma_number_is_told(packet: terminal::Packet, name: u8, number: Option<u32>)
    requires
        terminal::key(packet, name) == match number {
            Some(number) => Some(bytes::decimal(number as nat)),
            None => None,
        },
    ensures
        terminal::tells(packet, name, number),
{
    if let Some(number) = number {
        terminal::lemma_number_is_read(number as nat);
    }
}

/// A terminal that reads the packets of pixels has the pixels, byte for byte, and their width
/// after `s=` and their height after `v=`. It is told what to do with them, by every packet
/// where they are one more frame, and the number of the image, the delay and the size to show
/// it at, each where there is one, and nothing else.
#[verifier::spinoff_prover]
pub proof fn law_pixels_are_sent(rgba: Seq<u8>, meta: KittyRgbaMetadata<'_>)
    requires
        rgba.len() > 0,
    ensures
        terminal::packets(rgba_text(rgba, meta)) matches Some(read) && {
            &&& terminal::bring_pixels(read, meta.width, meta.height, rgba)
            &&& terminal::key(read[0], 0x61) == Some(
                if meta.action == KittyAction::AddFrame {
                    seq![0x66u8]
                } else {
                    seq![0x54u8]
                },
            )
            &&& forall|i: int|
                1 <= i < read.len() ==> terminal::key(#[trigger] read[i], 0x61) == if meta.action
                    == KittyAction::AddFrame {
                    Some(seq![0x66u8])
                } else {
                    None
                }
            &&& terminal::tells(read[0], 0x69, meta.image_id)
            &&& terminal::read_number(terminal::key(read[0], 0x7a)) == match meta.frame_delay_ms {
                Some(delay) => Some(delay as int),
                None => None,
            }
            &&& terminal::tells(read[0], 0x77, meta.config.max_pixels_w)
            &&& terminal::tells(read[0], 0x68, meta.config.max_pixels_h)
            &&& forall|i: int|
                0 <= i < read.len() ==> terminal::has_only(#[trigger] read[i], pixel_key_names())
            &&& forall|i: int|
                1 <= i < read.len() ==> terminal::has_only(#[trigger] read[i], seq![0x61u8, 0x6d])
        },
{
    let read = pixel_packets(rgba, meta);
    assert forall|i: int| 0 <= i < read.len() implies terminal::has_only(
        #[trigger] read[i],
        pixel_key_names(),
    ) && (i > 0 ==> terminal::has_only(read[i], seq![0x61u8, 0x6d])) by {
        lemma_pixels_have_only(rgba, meta, i);
    }
    let only = read.len() == 1;
    lemma_pixel_packets(rgba, meta);
    assert(read.len() > 0);
    lemma_pixel_key_values(meta, only);
    lemma_pixel_keys(rgba, meta, 0, 0x61);
    lemma_pixel_keys(rgba, meta, 0, 0x66);
    lemma_pixel_keys(rgba, meta, 0, 0x73);
    lemma_pixel_keys(rgba, meta, 0, 0x76);
    lemma_pixel_keys(rgba, meta, 0, 0x69);
    lemma_pixel_keys(rgba, meta, 0, 0x7a);
    lemma_pixel_keys(rgba, meta, 0, 0x77);
    lemma_pixel_keys(rgba, meta, 0, 0x68);
    lemma_pixel_keys(rgba, meta, 0, 0x6d);
    lemma_small_numbers();
    terminal::lemma_number_is_read(meta.width as nat);
    terminal::lemma_number_is_read(meta.height as nat);
    if let Some(delay) = meta.frame_delay_ms {
        terminal::lemma_signed_number_is_read(delay as int);
    }
    lemma_number_is_told(read[0], 0x69, meta.image_id);
    lemma_number_is_told(read[0], 0x77, meta.config.max_pixels_w);
    lemma_number_is_told(read[0], 0x68, meta.config.max_pixels_h);
    assert forall|i: int| 0 <= i < read.len() implies {
        &&& terminal::says_more(#[trigger] read[i]) <==> i + 1 < read.len()
        &&& read[i].payload.len() <= 4096
        &&& i + 1 < read.len() ==> read[i].payload.len() == 4096
        &&& i > 0 ==> terminal::key(read[i], 0x61) == if meta.action == KittyAction::AddFrame {
            Some(seq![0x66u8])
        } else {
            None
        }
        &&& i > 0 && i == read.len() - 1 ==> terminal::key(read[i], 0x6d) == Some(seq![0x30u8])
    } by {
        reveal_with_fuel(terminal::key_named, 2);
        lemma_pixel_keys(rgba, meta, i, 0x6d);
        lemma_pixel_keys(rgba, meta, i, 0x61);
        lemma_small_numbers();
    }
}

proof fn lemma_small_numbers()
    ensures
        terminal::read_number(Some(seq![0x33u8, 0x32])) == Some(32int),
        terminal::read_number(Some(seq![0x31u8, 0x30, 0x30])) == Some(100int),
        terminal::read_number(Some(seq![0x31u8])) == Some(1int),
        terminal::read_number(Some(seq![0x33u8])) == Some(3int),
        seq![0x30u8] != seq![0x31u8],
{
    reveal_with_fuel(bytes::decimal, 3);
    terminal::lemma_number_is_read(32);
    terminal::lemma_number_is_read(100);
    terminal::lemma_number_is_read(1);
    terminal::lemma_number_is_read(3);
    assert(bytes::decimal(32) =~= seq![0x33u8, 0x32]);
    assert(bytes::decimal(100) =~= seq![0x31u8, 0x30, 0x30]);
    assert(bytes::decimal(1) =~= seq![0x31u8]);
    assert(bytes::decimal(3) =~= seq![0x33u8]);
    assert(seq![0x30u8][0] != seq![0x31u8][0]);
}

/// The keys of packet `i` of a PNG file.
spec fn file_keys(config: Config, several: bool, last: bool, i: int) -> (
    KeyValue,
    Seq<KeyValue>,
) {
    if i == 0 {
        (
            key_value(0x66, seq![0x31u8, 0x30, 0x30]),
            seq![
                key_value(0x61, seq![0x54u8]),
                KeyValue {
                    name: 0x6d,
                    value: if several {
                        Some(seq![0x31u8])
                    } else {
                        None
                    },
                },
                width_key(config),
                height_key(config),
            ],
        )
    } else {
        (more_key(last), Seq::empty())
    }
}

proof fn lemma_file_pieces()
    ensures
        ({
            let lead = seq![terminal::ESCAPE, 0x5fu8, 0x47];
            let start = seq![0x66u8, terminal::EQUALS] + seq![0x31u8, 0x30, 0x30];
            let action = seq![terminal::COMMA, 0x61u8, terminal::EQUALS] + seq![0x54u8];
            let more = seq![terminal::COMMA, 0x6du8, terminal::EQUALS] + seq![0x31u8];
            &&& bytes::text("\x1b_Gf=100,a=T") == lead + (start + action)
            &&& bytes::text("\x1b_Gf=100,a=T,m=1") == lead + (start + (action + more))
            &&& bytes::text("\x1b_Gm=0;") == lead + (seq![0x6du8, terminal::EQUALS] + seq![
                0x30u8,
            ]) + seq![terminal::SEMICOLON]
            &&& bytes::text("\x1b_Gm=1;") == lead + (seq![0x6du8, terminal::EQUALS] + seq![
                0x31u8,
            ]) + seq![terminal::SEMICOLON]
        }),
{
    reveal_strlit("\x1b_Gf=100,a=T");
    reveal_strlit("\x1b_Gf=100,a=T,m=1");
    reveal_strlit("\x1b_Gm=0;");
    reveal_strlit("\x1b_Gm=1;");
    vstd::utf8::is_ascii_chars_encode_utf8("\x1b_Gf=100,a=T"@);
    vstd::utf8::is_ascii_chars_encode_utf8("\x1b_Gf=100,a=T,m=1"@);
    vstd::utf8::is_ascii_chars_encode_utf8("\x1b_Gm=0;"@);
    vstd::utf8::is_ascii_chars_encode_utf8("\x1b_Gm=1;"@);
}

/// The keys of a PNG file can be told apart.
proof fn lemma_file_keys_are_clear(config: Config, several: bool, last: bool, i: int)
    ensures
        are_clear(file_keys(config, several, last, i)),
{
    let keys = file_keys(config, several, last, i);
    assert forall|byte: u8|
        byte == terminal::COMMA || byte == terminal::SEMICOLON || byte
            == terminal::ESCAPE implies #[trigger] terminal::all_lack(keys.1, byte) && keys.0.lacks(
        byte,
    ) by {
        lemma_size_is_clear(config, byte);
        assert(!seq![0x31u8, 0x30, 0x30].contains(byte));
        assert(!seq![0x30u8].contains(byte));
        assert(!seq![0x31u8].contains(byte));
        assert(!seq![0x54u8].contains(byte));
    }
}

/// Four keys one after the other.
proof fn lemma_keys_text_of_files(keys: Seq<KeyValue>)
    requires
        keys.len() == 4,
    ensures
        terminal::keys_text(keys, 4) == keys[0].text() + keys[1].text() + (keys[2].text()
            + keys[3].text()),
{
    reveal_with_fuel(terminal::keys_text, 5);
    assert(Seq::<u8>::empty() + keys[0].text() =~= keys[0].text());
    bytes::lemma_append_parts(
        keys[0].text() + keys[1].text(),
        keys[2].text(),
        keys[3].text(),
    );
}

/// A packet of a PNG file, key by key.
proof fn lemma_file_packet(payload: Seq<u8>, config: Config, i: int)
    ensures
        png_packet(payload, config, i) == terminal::packet_text(
            body_text(
                file_keys(config, true, is_last_packet(payload.len() as int, i), i),
                chunk(payload, i),
            ),
        ),
        bytes::text("\x1b_Gf=100,a=T") + size_text(config) + bytes::text(";") + payload
            + bytes::text("\x1b\\") == terminal::packet_text(
            body_text(file_keys(config, false, true, 0), payload),
        ),
{
    let last = is_last_packet(payload.len() as int, i);
    let keys = file_keys(config, true, last, i);
    let single = file_keys(config, false, true, 0);
    lemma_key_pieces();
    lemma_file_pieces();
    lemma_size_text(config);
    lemma_keys_text_of_files(single.1);
    assert(single.1[0].text() + single.1[1].text() =~= seq![
        terminal::COMMA,
        0x61u8,
        terminal::EQUALS,
    ] + seq![0x54u8]);
    assert(bytes::text("\x1b_Gf=100,a=T") + size_text(config) + bytes::text(";") + payload
        + bytes::text("\x1b\\") =~= terminal::packet_text(body_text(single, payload)));
    if i == 0 {
        lemma_keys_text_of_files(keys.1);
        assert(keys.1[0].text() + keys.1[1].text() =~= seq![
            terminal::COMMA,
            0x61u8,
            terminal::EQUALS,
        ] + seq![0x54u8] + (seq![terminal::COMMA, 0x6du8, terminal::EQUALS] + seq![0x31u8]));
        assert(png_packet(payload, config, 0) =~= terminal::packet_text(
            body_text(keys, chunk(payload, 0)),
        ));
    } else {
        assert(terminal::keys_text(keys.1, 0) =~= Seq::empty());
        assert(png_packet(payload, config, i) =~= terminal::packet_text(
            body_text(keys, chunk(payload, i)),
        ));
    }
}

/// The packets of a PNG file as a terminal reads them.
spec fn file_packets(decoded: Seq<u8>, config: Config) -> Seq<terminal::Packet> {
    let payload = payload::base64(decoded);
    let len = payload.len() as int;
    if len <= KITTY_CHUNK_BYTES {
        seq![terminal::packet_of(body_text(file_keys(config, false, true, 0), payload))]
    } else {
        Seq::new(
            packet_count(len),
            |i: int|
                terminal::packet_of(
                    body_text(
                        file_keys(config, true, is_last_packet(len, i), i),
                        chunk(payload, i),
                    ),
                ),
        )
    }
}

/// A terminal reads the packets of a PNG file one by one, and they carry the file.
proof fn lemma_file_packets(decoded: Seq<u8>, config: Config)
    ensures
        terminal::packets(png_text(decoded, config)) == Some(file_packets(decoded, config)),
        terminal::carried(file_packets(decoded, config)) == payload::base64(decoded),
{
    let payload = payload::base64(decoded);
    let len = payload.len() as int;
    let count = packet_count(len);
    let read = file_packets(decoded, config);
    if len <= KITTY_CHUNK_BYTES {
        let keys = file_keys(config, false, true, 0);
        lemma_file_packet(payload, config, 0);
        lemma_file_keys_are_clear(config, false, true, 0);
        if payload.contains(terminal::ESCAPE) {
            let i = choose|i: int| 0 <= i < payload.len() && payload[i] == terminal::ESCAPE;
            payload::law_base64_is_printable(decoded, i);
        }
        lemma_body_is_read(keys, payload, 0x61);
        let text = terminal::packet_text(body_text(keys, payload));
        terminal::lemma_packet_is_read(body_text(keys, payload), Seq::empty());
        assert(text + Seq::empty() =~= text);
        assert(read + Seq::empty() =~= read);
        assert(read.map_values(|packet: terminal::Packet| packet.payload) =~= seq![payload]);
        Seq::<Seq<u8>>::empty().lemma_flatten_push(payload);
        assert(seq![payload] =~= Seq::<Seq<u8>>::empty().push(payload));
        assert(seq![payload].flatten() =~= payload);
    } else {
        let bodies = |i: int|
            body_text(file_keys(config, true, is_last_packet(len, i), i), chunk(payload, i));
        assert forall|i: int| 0 <= i < count implies {
            &&& !(#[trigger] bodies(i)).contains(terminal::ESCAPE)
            &&& png_packet(payload, config, i) == terminal::packet_text(bodies(i))
            &&& read[i].payload == chunk(payload, i)
        } by {
            lemma_file_packet(payload, config, i);
            lemma_file_keys_are_clear(config, true, is_last_packet(len, i), i);
            lemma_chunk_is_clear(decoded, i);
            lemma_body_is_read(
                file_keys(config, true, is_last_packet(len, i), i),
                chunk(payload, i),
                0x61,
            );
            assert(read[i] == terminal::packet_of(bodies(i)));
        }
        terminal::lemma_packets_in_a_row(bodies, count);
        assert(Seq::new(count, |i: int| png_packet(payload, config, i)) =~= Seq::new(
            count,
            |i: int| terminal::packet_text(bodies(i)),
        ));
        assert(Seq::new(count, |i: int| terminal::packet_of(bodies(i))) =~= read);
        assert(read.map_values(|packet: terminal::Packet| packet.payload) =~= Seq::new(
            count,
            |i: int| chunk(payload, i),
        )) by {
            assert forall|i: int| 0 <= i < count implies read[i].payload == chunk(payload, i) by {
                assert(!bodies(i).contains(terminal::ESCAPE));
            }
        }
        law_packets_carry_the_payload(payload);
    }
}

/// The keys of a packet of a PNG file as a terminal reads them.
proof fn lemma_file_keys(decoded: Seq<u8>, config: Config, i: int, name: u8)
    requires
        0 <= i < file_packets(decoded, config).len(),
        name != terminal::EQUALS,
    ensures
        ({
            let read = file_packets(decoded, config);
            let keys = file_keys(config, read.len() > 1, i == read.len() - 1, i);
            &&& terminal::key(read[i], name) == if keys.0.name == name {
                keys.0.value
            } else {
                terminal::key_named(keys.1, keys.1.len(), name)
            }
            &&& read[i].payload.len() <= 4096
            &&& i < read.len() - 1 ==> read[i].payload.len() == 4096
        }),
{
    let payload = payload::base64(decoded);
    let len = payload.len() as int;
    if len <= KITTY_CHUNK_BYTES {
        lemma_file_keys_are_clear(config, false, true, 0);
        if payload.contains(terminal::ESCAPE) {
            let i = choose|i: int| 0 <= i < payload.len() && payload[i] == terminal::ESCAPE;
            payload::law_base64_is_printable(decoded, i);
        }
        lemma_body_is_read(file_keys(config, false, true, 0), payload, name);
    } else {
        let last = is_last_packet(len, i);
        law_packets_are_small(payload, i);
        lemma_file_keys_are_clear(config, true, last, i);
        lemma_chunk_is_clear(decoded, i);
        lemma_body_is_read(file_keys(config, true, last, i), chunk(payload, i), name);
    }
}

/// A packet of a PNG file has no other keys.
proof fn lemma_files_have_only(decoded: Seq<u8>, config: Config, i: int)
    requires
        0 <= i < file_packets(decoded, config).len(),
    ensures
        terminal::has_only(
            file_packets(decoded, config)[i],
            if i == 0 {
                seq![0x66u8, 0x61, 0x6d, 0x77, 0x68]
            } else {
                seq![0x6du8]
            },
        ),
{
    let payload = payload::base64(decoded);
    let len = payload.len() as int;
    let several = len > KITTY_CHUNK_BYTES;
    let last = !several || is_last_packet(len, i);
    let part = if several {
        chunk(payload, i)
    } else {
        payload
    };
    let keys = file_keys(config, several, last, i);
    lemma_file_keys_are_clear(config, several, last, i);
    if several {
        lemma_chunk_is_clear(decoded, i);
    } else if payload.contains(terminal::ESCAPE) {
        let k = choose|k: int| 0 <= k < payload.len() && payload[k] == terminal::ESCAPE;
        payload::law_base64_is_printable(decoded, k);
    }
    lemma_body_has_only(keys, part);
    assert(key_names(keys) =~= if i == 0 {
        seq![0x66u8, 0x61, 0x6d, 0x77, 0x68]
    } else {
        seq![0x6du8]
    });
}

/// A terminal that reads the packets of a PNG file has the whole file. It is told once that it is
/// a PNG file to show, and the size to show it at where there is one, and nothing else.
#[verifier::spinoff_prover]
pub proof fn law_png_files_are_sent(decoded: Seq<u8>, config: Config)
    ensures
        terminal::packets(png_text(decoded, config)) matches Some(read) && {
            &&& terminal::bring_one_image(read)
            &&& payload::unbase64(terminal::carried(read)) == decoded
            &&& terminal::carried(read) == payload::base64(decoded)
            &&& terminal::read_number(terminal::key(read[0], 0x66)) == Some(100int)
            &&& terminal::key(read[0], 0x61) == Some(seq![0x54u8])
            &&& terminal::tells(read[0], 0x77, config.max_pixels_w)
            &&& terminal::tells(read[0], 0x68, config.max_pixels_h)
            &&& terminal::key(read[0], 0x69) is None
            &&& forall|i: int|
                1 <= i < read.len() ==> terminal::key(#[trigger] read[i], 0x61) is None
                    && terminal::key(read[i], 0x66) is None
            &&& terminal::has_only(read[0], seq![0x66u8, 0x61, 0x6d, 0x77, 0x68])
            &&& forall|i: int|
                1 <= i < read.len() ==> terminal::has_only(#[trigger] read[i], seq![0x6du8])
        },
{
    let read = file_packets(decoded, config);
    assert forall|i: int| 0 <= i < read.len() implies terminal::has_only(
        #[trigger] read[i],
        if i == 0 {
            seq![0x66u8, 0x61, 0x6d, 0x77, 0x68]
        } else {
            seq![0x6du8]
        },
    ) by {
        lemma_files_have_only(decoded, config, i);
    }
    let keys = file_keys(config, read.len() > 1, read.len() == 1, 0);
    lemma_file_packets(decoded, config);
    payload::law_base64_is_reversible(decoded);
    reveal_with_fuel(terminal::key_named, 5);
    lemma_small_numbers();
    lemma_file_keys(decoded, config, 0, 0x66);
    lemma_file_keys(decoded, config, 0, 0x61);
    lemma_file_keys(decoded, config, 0, 0x77);
    lemma_file_keys(decoded, config, 0, 0x68);
    lemma_file_keys(decoded, config, 0, 0x69);
    lemma_number_is_told(read[0], 0x77, config.max_pixels_w);
    lemma_number_is_told(read[0], 0x68, config.max_pixels_h);
    assert forall|i: int| 0 <= i < read.len() implies {
        &&& terminal::says_more(#[trigger] read[i]) <==> i + 1 < read.len()
        &&& read[i].payload.len() <= 4096
        &&& i + 1 < read.len() ==> read[i].payload.len() == 4096
        &&& i > 0 ==> terminal::key(read[i], 0x61) is None && terminal::key(read[i], 0x66) is None
        &&& i > 0 && i == read.len() - 1 ==> terminal::key(read[i], 0x6d) == Some(seq![0x30u8])
    } by {
        lemma_file_keys(decoded, config, i, 0x6d);
        lemma_file_keys(decoded, config, i, 0x61);
        lemma_file_keys(decoded, config, i, 0x66);
    }
}

/// What goes with frame `k` of an animation.
spec fn frame_meta(frame: ShownFrame, config: &Config, id: u32, k: int) -> KittyRgbaMetadata<'_> {
    KittyRgbaMetadata {
        action: if k == 0 {
            KittyAction::Show
        } else {
            KittyAction::AddFrame
        },
        image_id: Some(id),
        width: frame.width,
        height: frame.height,
        frame_delay_ms: if k == 0 {
            None
        } else {
            Some(frame.delay_ms)
        },
        config,
    }
}

/// The keys of a command for an image that was sent.
spec fn control_keys(id: u32, second: KeyValue, third: KeyValue) -> (KeyValue, Seq<KeyValue>) {
    (
        key_value(0x61, seq![0x61u8]),
        seq![key_value(0x69, bytes::decimal(id as nat)), second, third],
    )
}

/// The command for the delay of the first frame, and the one that starts an animation.
spec fn delay_keys(id: u32, delay: i32) -> (KeyValue, Seq<KeyValue>) {
    control_keys(
        id,
        key_value(0x72, seq![0x31u8]),
        key_value(0x7a, bytes::signed_decimal(delay as int)),
    )
}

spec fn start_keys(id: u32) -> (KeyValue, Seq<KeyValue>) {
    control_keys(id, key_value(0x73, seq![0x33u8]), key_value(0x76, seq![0x31u8]))
}

proof fn lemma_control_pieces()
    ensures
        bytes::text("\x1b_Ga=a,i=") == seq![terminal::ESCAPE, 0x5fu8, 0x47] + (seq![
            0x61u8,
            terminal::EQUALS,
        ] + seq![0x61u8] + seq![terminal::COMMA, 0x69u8, terminal::EQUALS]),
        bytes::text(",r=1,z=") == seq![terminal::COMMA, 0x72u8, terminal::EQUALS] + seq![0x31u8]
            + seq![terminal::COMMA, 0x7au8, terminal::EQUALS],
        bytes::text(",s=3,v=1\x1b\\") == seq![terminal::COMMA, 0x73u8, terminal::EQUALS] + seq![
            0x33u8,
        ] + (seq![terminal::COMMA, 0x76u8, terminal::EQUALS] + seq![0x31u8]) + seq![
            terminal::ESCAPE,
            terminal::BACKSLASH,
        ],
        bytes::text("\x1b\\") == seq![terminal::ESCAPE, terminal::BACKSLASH],
{
    reveal_strlit("\x1b_Ga=a,i=");
    reveal_strlit(",r=1,z=");
    reveal_strlit(",s=3,v=1\x1b\\");
    reveal_strlit("\x1b\\");
    vstd::utf8::is_ascii_chars_encode_utf8("\x1b_Ga=a,i="@);
    vstd::utf8::is_ascii_chars_encode_utf8(",r=1,z="@);
    vstd::utf8::is_ascii_chars_encode_utf8(",s=3,v=1\x1b\\"@);
    vstd::utf8::is_ascii_chars_encode_utf8("\x1b\\"@);
}

/// Three keys one after the other.
proof fn lemma_control_text(keys: Seq<KeyValue>)
    requires
        keys.len() == 3,
    ensures
        terminal::keys_text(keys, 3) == keys[0].text() + keys[1].text() + keys[2].text(),
{
    reveal_with_fuel(terminal::keys_text, 4);
    assert(Seq::<u8>::empty() + keys[0].text() =~= keys[0].text());
}

/// The commands of an animation beside its frames, key by key.
proof fn lemma_control_packets(id: u32, delay: i32)
    ensures
        bytes::text("\x1b_Ga=a,i=") + bytes::decimal(id as nat) + bytes::text(",r=1,z=")
            + bytes::signed_decimal(delay as int) + bytes::text("\x1b\\")
            == terminal::packet_text(list_text(delay_keys(id, delay))),
        bytes::text("\x1b_Ga=a,i=") + bytes::decimal(id as nat) + bytes::text(
            ",s=3,v=1\x1b\\",
        ) == terminal::packet_text(list_text(start_keys(id))),
        are_clear(delay_keys(id, delay)),
        are_clear(start_keys(id)),
{
    let (d, s) = (delay_keys(id, delay), start_keys(id));
    lemma_control_pieces();
    lemma_control_text(d.1);
    lemma_control_text(s.1);
    assert(bytes::text("\x1b_Ga=a,i=") + bytes::decimal(id as nat) + bytes::text(",r=1,z=")
        + bytes::signed_decimal(delay as int) + bytes::text("\x1b\\") =~= terminal::packet_text(
        list_text(d),
    ));
    assert(bytes::text("\x1b_Ga=a,i=") + bytes::decimal(id as nat) + bytes::text(
        ",s=3,v=1\x1b\\",
    ) =~= terminal::packet_text(list_text(s)));
    lemma_number_is_clear(id as int, terminal::COMMA);
    lemma_number_is_clear(id as int, terminal::SEMICOLON);
    lemma_number_is_clear(id as int, terminal::ESCAPE);
    lemma_number_is_clear(delay as int, terminal::COMMA);
    lemma_number_is_clear(delay as int, terminal::SEMICOLON);
    lemma_number_is_clear(delay as int, terminal::ESCAPE);
}

/// A command is for an image that was sent under the number `id`, and no part of it.
pub open spec fn is_control(packets: Seq<terminal::Packet>, id: u32) -> bool {
    &&& packets.len() == 1
    &&& terminal::key(packets[0], 0x61) == Some(seq![0x61u8])
    &&& terminal::tells(packets[0], 0x69, Some(id))
    &&& packets[0].payload.len() == 0
    &&& !terminal::says_more(packets[0])
    &&& terminal::has_only(packets[0], seq![0x61u8, 0x69, 0x72, 0x7a, 0x73, 0x76])
}

/// The commands of an animation beside its frames as a terminal reads them.
#[verifier::spinoff_prover]
proof fn lemma_control_is_read(id: u32, delay: i32, rest: Seq<u8>)
    requires
        terminal::packets(rest) is Some,
    ensures
        ({
            let keys = (delay_keys(id, delay), start_keys(id));
            let text = (
                terminal::packet_text(list_text(keys.0)),
                terminal::packet_text(list_text(keys.1)),
            );
            let read = (
                terminal::packet_of(list_text(keys.0)),
                terminal::packet_of(list_text(keys.1)),
            );
            &&& terminal::packets(text.0 + rest) == Some(
                seq![read.0] + terminal::packets(rest)->Some_0,
            )
            &&& terminal::packets(text.1 + rest) == Some(
                seq![read.1] + terminal::packets(rest)->Some_0,
            )
            &&& is_control(seq![read.0], id)
            &&& is_control(seq![read.1], id)
            &&& terminal::read_number(terminal::key(read.0, 0x72)) == Some(1int)
            &&& terminal::read_number(terminal::key(read.0, 0x7a)) == Some(delay as int)
            &&& terminal::read_number(terminal::key(read.1, 0x73)) == Some(3int)
            &&& terminal::read_number(terminal::key(read.1, 0x76)) == Some(1int)
        }),
{
    let (d, s) = (delay_keys(id, delay), start_keys(id));
    lemma_control_packets(id, delay);
    assert forall|name: u8| name != terminal::EQUALS implies {
        &&& #[trigger] terminal::key(terminal::packet_of(list_text(d)), name) == if d.0.name
            == name {
            d.0.value
        } else {
            terminal::key_named(d.1, d.1.len(), name)
        }
        &&& terminal::key(terminal::packet_of(list_text(s)), name) == if s.0.name == name {
            s.0.value
        } else {
            terminal::key_named(s.1, s.1.len(), name)
        }
    } by {
        lemma_body_is_read(d, Seq::empty(), name);
        lemma_body_is_read(s, Seq::empty(), name);
    }
    lemma_body_is_read(d, Seq::empty(), 0x61);
    lemma_body_is_read(s, Seq::empty(), 0x61);
    terminal::lemma_packet_is_read(list_text(d), rest);
    terminal::lemma_packet_is_read(list_text(s), rest);
    reveal_with_fuel(terminal::key_named, 4);
    let (r, t) = (terminal::packet_of(list_text(d)), terminal::packet_of(list_text(s)));
    assert(terminal::key(r, 0x61) == d.0.value);
    assert(terminal::key(r, 0x69) == d.1[0].value);
    assert(terminal::key(r, 0x72) == d.1[1].value);
    assert(terminal::key(r, 0x7a) == d.1[2].value);
    assert(terminal::key(r, 0x6d) is None);
    assert(terminal::key(r, 0x73) is None);
    assert(terminal::key(r, 0x76) is None);
    assert(terminal::key(t, 0x61) == s.0.value);
    assert(terminal::key(t, 0x69) == s.1[0].value);
    assert(terminal::key(t, 0x73) == s.1[1].value);
    assert(terminal::key(t, 0x76) == s.1[2].value);
    assert(terminal::key(t, 0x6d) is None);
    lemma_small_numbers();
    terminal::lemma_number_is_read(id as nat);
    terminal::lemma_signed_number_is_read(delay as int);
    lemma_control_has_only(id, delay);
}

proof fn lemma_control_has_only(id: u32, delay: i32)
    ensures
        ({
            let names = seq![0x61u8, 0x69, 0x72, 0x7a, 0x73, 0x76];
            let (d, s) = (delay_keys(id, delay), start_keys(id));
            &&& terminal::has_only(terminal::packet_of(list_text(d)), names)
            &&& terminal::has_only(terminal::packet_of(list_text(s)), names)
        }),
{
    let names = seq![0x61u8, 0x69, 0x72, 0x7a, 0x73, 0x76];
    let (d, s) = (delay_keys(id, delay), start_keys(id));
    lemma_control_packets(id, delay);
    lemma_body_has_only(d, Seq::empty());
    lemma_body_has_only(s, Seq::empty());
    assert(names[0] == 0x61 && names[1] == 0x69 && names[2] == 0x72 && names[3] == 0x7a && names[4]
        == 0x73 && names[5] == 0x76);
    terminal::lemma_has_only(terminal::packet_of(list_text(d)), key_names(d), names);
    terminal::lemma_has_only(terminal::packet_of(list_text(s)), key_names(s), names);
}

/// The packets of an animation as a terminal groups them: those of the first frame, the command
/// for its delay, and those of each further frame.
#[verifier::opaque]
spec fn animation_group(frames: Seq<ShownFrame>, config: Config, id: u32, j: int) -> Seq<
    terminal::Packet,
> {
    if j == 1 {
        seq![terminal::packet_of(list_text(delay_keys(id, frames[0].delay_ms)))]
    } else {
        let k = if j == 0 {
            0
        } else {
            j - 1
        };
        pixel_packets(frames[k].rgba, frame_meta(frames[k], &config, id, k))
    }
}

/// The packets of pixels are those of one image.
proof fn lemma_pixels_are_one(rgba: Seq<u8>, meta: KittyRgbaMetadata<'_>)
    requires
        rgba.len() > 0,
    ensures
        terminal::packets(rgba_text(rgba, meta)) == Some(pixel_packets(rgba, meta)),
        terminal::are_one(pixel_packets(rgba, meta)),
{
    lemma_pixel_packets(rgba, meta);
    law_pixels_are_sent(rgba, meta);
}

/// The command for the delay of the first frame as a terminal reads it.
proof fn lemma_delay_is_one(id: u32, delay: i32)
    ensures
        ({
            let command = terminal::packet_text(list_text(delay_keys(id, delay)));
            let read = seq![terminal::packet_of(list_text(delay_keys(id, delay)))];
            terminal::packets(command) == Some(read) && terminal::are_one(read)
        }),
{
    let command = terminal::packet_text(list_text(delay_keys(id, delay)));
    let read = seq![terminal::packet_of(list_text(delay_keys(id, delay)))];
    lemma_control_is_read(id, delay, Seq::empty());
    assert(command + Seq::empty() =~= command);
    assert(read + Seq::<terminal::Packet>::empty() =~= read);
}

/// A frame, whatever follows, as a terminal reads it.
proof fn lemma_frame_is_read(
    frames: Seq<ShownFrame>,
    config: Config,
    id: u32,
    k: int,
    rest: Seq<u8>,
)
    requires
        0 <= k < frames.len(),
        frames[k].rgba.len() > 0,
        terminal::packets(rest) is Some,
    ensures
        terminal::packets(frame_text(frames[k], config, id, k) + rest) is Some,
        terminal::images(
            terminal::packets(frame_text(frames[k], config, id, k) + rest)->Some_0,
        ) == (if k == 0 {
            seq![
                animation_group(frames, config, id, 0),
                animation_group(frames, config, id, 1),
            ]
        } else {
            seq![animation_group(frames, config, id, k + 1)]
        }) + terminal::images(terminal::packets(rest)->Some_0),
{
    let frame = frames[k];
    let meta = frame_meta(frame, &config, id, k);
    let after = terminal::images(terminal::packets(rest)->Some_0);
    let pixels = pixel_packets(frame.rgba, meta);
    let text = rgba_text(frame.rgba, meta);
    reveal(animation_group);
    lemma_pixels_are_one(frame.rgba, meta);
    if k == 0 {
        let control = animation_group(frames, config, id, 1);
        let command = terminal::packet_text(list_text(delay_keys(id, frame.delay_ms)));
        lemma_control_packets(id, frame.delay_ms);
        lemma_delay_is_one(id, frame.delay_ms);
        terminal::lemma_image_is_read(command, control, rest);
        terminal::lemma_image_is_read(text, pixels, command + rest);
        lemma_first_frame_text(frame, config, id, rest);
        assert(seq![pixels] + (seq![control] + after) =~= seq![pixels, control] + after);
    } else {
        terminal::lemma_image_is_read(text, pixels, rest);
    }
}

/// The first frame of an animation and the command for its delay.
proof fn lemma_first_frame_text(frame: ShownFrame, config: Config, id: u32, rest: Seq<u8>)
    ensures
        frame_text(frame, config, id, 0) + rest == rgba_text(
            frame.rgba,
            frame_meta(frame, &config, id, 0),
        ) + (terminal::packet_text(list_text(delay_keys(id, frame.delay_ms))) + rest),
{
    broadcast use bytes::lemma_append_parts;

    lemma_control_packets(id, frame.delay_ms);
}

/// The groups of one more frame stand after those before it.
proof fn lemma_next_group(
    group: spec_fn(int) -> Seq<terminal::Packet>,
    m: nat,
    after: Seq<Seq<terminal::Packet>>,
)
    ensures
        m == 0 ==> Seq::new(0, group) + (seq![group(0), group(1)] + after) == Seq::new(2, group)
            + after,
        m > 0 ==> Seq::new(m + 1, group) + (seq![group(m as int + 1)] + after) == Seq::new(
            m + 2,
            group,
        ) + after,
{
    assert(Seq::new(0, group) + (seq![group(0), group(1)] + after) =~= Seq::new(2, group) + after);
    assert(Seq::new(m + 1, group) + (seq![group(m as int + 1)] + after) =~= Seq::new(m + 2, group)
        + after);
}

/// The first `n` frames, whatever follows, as a terminal reads them.
#[verifier::spinoff_prover]
proof fn lemma_frames_are_read(
    frames: Seq<ShownFrame>,
    config: Config,
    id: u32,
    n: nat,
    rest: Seq<u8>,
)
    requires
        n <= frames.len(),
        forall|k: int| 0 <= k < frames.len() ==> (#[trigger] frames[k]).rgba.len() > 0,
        terminal::packets(rest) is Some,
    ensures
        ({
            let text = Seq::new(n, |k: int| frame_text(frames[k], config, id, k)).flatten() + rest;
            let groups = Seq::new(
                if n == 0 {
                    0
                } else {
                    n + 1
                },
                |j: int| animation_group(frames, config, id, j),
            );
            &&& terminal::packets(text) is Some
            &&& terminal::images(terminal::packets(text)->Some_0) == groups + terminal::images(
                terminal::packets(rest)->Some_0,
            )
        }),
    decreases n,
{
    let pieces = |k: int| frame_text(frames[k], config, id, k);
    let group = |j: int| animation_group(frames, config, id, j);
    let after = terminal::images(terminal::packets(rest)->Some_0);
    if n == 0 {
        assert(Seq::new(0, pieces).flatten() + rest =~= rest);
        assert(Seq::new(0, group) + after =~= after);
    } else {
        let m = (n - 1) as nat;
        assert(frames[m as int].rgba.len() > 0);
        lemma_frame_is_read(frames, config, id, m as int, rest);
        let more = pieces(m as int) + rest;
        lemma_frames_are_read(frames, config, id, m, more);
        bytes::lemma_flatten_next(pieces, m);
        assert(Seq::new(n, pieces).flatten() + rest =~= Seq::new(m, pieces).flatten() + more);
        lemma_next_group(group, m, after);
    }
}

/// A terminal that reads an animation has all its frames in order, under one number: of each the
/// pixels, byte for byte, the width and the height, and the time that it is shown. The first
/// frame makes the image, and its time is told after it; the others are added to it. An
/// animation of several frames is started, to run without end, and one of one frame is not.
///
/// A frame without pixels is told nothing of.
#[verifier::spinoff_prover]
pub proof fn law_animations_are_sent(decoded: Seq<u8>, config: Config, id: u32)
    requires
        animates(decoded, config),
        forall|k: int|
            0 <= k < gif::animation(decoded, config)->Ok_0.len() ==> (
            #[trigger] gif::animation(decoded, config)->Ok_0[k]).rgba.len() > 0,
    ensures
        terminal::packets(gif_text(decoded, config, id)) is Some,
        ({
            let frames = gif::animation(decoded, config)->Ok_0;
            let n = frames.len() as int;
            let read = terminal::images(
                terminal::packets(gif_text(decoded, config, id))->Some_0,
            );
            &&& read.len() == if n > 1 {
                n + 2
            } else {
                2
            }
            &&& tells_frame(read[0], frames[0], config, id)
            &&& terminal::key(read[0][0], 0x61) == Some(seq![0x54u8])
            &&& is_control(read[1], id)
            &&& terminal::read_number(terminal::key(read[1][0], 0x72)) == Some(1int)
            &&& terminal::read_number(terminal::key(read[1][0], 0x7a)) == Some(
                frames[0].delay_ms as int,
            )
            &&& forall|k: int|
                1 <= k < n ==> {
                    &&& tells_frame(read[k + 1], #[trigger] frames[k], config, id)
                    &&& terminal::read_number(terminal::key(read[k + 1][0], 0x7a)) == Some(
                        frames[k].delay_ms as int,
                    )
                    &&& forall|i: int|
                        0 <= i < read[k + 1].len() ==> terminal::key(
                            #[trigger] read[k + 1][i],
                            0x61,
                        ) == Some(seq![0x66u8])
                }
            &&& n > 1 ==> {
                &&& is_control(read[n + 1], id)
                &&& terminal::read_number(terminal::key(read[n + 1][0], 0x73)) == Some(3int)
                &&& terminal::read_number(terminal::key(read[n + 1][0], 0x76)) == Some(1int)
            }
        }),
{
    let frames = gif::animation(decoded, config)->Ok_0;
    let n = frames.len();
    let group = |j: int| animation_group(frames, config, id, j);
    reveal(animation_group);
    let start = seq![terminal::packet_of(list_text(start_keys(id)))];
    let command = terminal::packet_text(list_text(start_keys(id)));
    let rest = if n > 1 {
        command
    } else {
        Seq::empty()
    };
    lemma_control_packets(id, frames[0].delay_ms);
    lemma_control_is_read(id, frames[0].delay_ms, Seq::empty());
    assert(command + Seq::empty() =~= command);
    assert(start + Seq::<terminal::Packet>::empty() =~= start);
    terminal::lemma_first_image(start, Seq::empty());
    assert(terminal::images(Seq::empty()) =~= Seq::empty());
    assert(seq![start] + Seq::<Seq<terminal::Packet>>::empty() =~= seq![start]);
    lemma_frames_text(frames, config, id);
    lemma_frames_are_read(frames, config, id, n, rest);
    let text = gif_text(decoded, config, id);
    assert(text == Seq::new(n, |k: int| frame_text(frames[k], config, id, k)).flatten() + rest);
    let read = terminal::images(terminal::packets(text)->Some_0);
    assert(read == Seq::new(n + 1, group) + (if n > 1 {
        seq![start]
    } else {
        Seq::empty()
    }));
    assert forall|k: int| 0 <= k < n implies tells_frame(
        group(
            if k == 0 {
                0
            } else {
                k + 1
            },
        ),
        #[trigger] frames[k],
        config,
        id,
    ) by {
        let meta = frame_meta(frames[k], &config, id, k);
        lemma_pixel_packets(frames[k].rgba, meta);
        law_pixels_are_sent(frames[k].rgba, meta);
    }
    assert forall|k: int| 1 <= k < n implies {
        &&& terminal::read_number(terminal::key(group(k + 1)[0], 0x7a)) == Some(
            (#[trigger] frames[k]).delay_ms as int,
        )
        &&& forall|i: int|
            0 <= i < group(k + 1).len() ==> terminal::key(#[trigger] group(k + 1)[i], 0x61) == Some(
                seq![0x66u8],
            )
    } by {
        let meta = frame_meta(frames[k], &config, id, k);
        lemma_pixel_packets(frames[k].rgba, meta);
        law_pixels_are_sent(frames[k].rgba, meta);
    }
    let meta = frame_meta(frames[0], &config, id, 0);
    assert(frames[0].rgba.len() > 0);
    lemma_pixel_packets(frames[0].rgba, meta);
    law_pixels_are_sent(frames[0].rgba, meta);
    assert(read[0] == group(0) && read[1] == group(1));
    assert forall|k: int| 1 <= k < n implies read[k + 1] == #[trigger] group(k + 1) by {}
}

/// The packets bring a frame of the animation with the number `id`, to be shown at the size of
/// the settings.
pub open spec fn tells_frame(
    packets: Seq<terminal::Packet>,
    frame: ShownFrame,
    config: Config,
    id: u32,
) -> bool {
    &&& terminal::bring_pixels(packets, frame.width, frame.height, frame.rgba)
    &&& terminal::tells(packets[0], 0x69, Some(id))
    &&& terminal::tells(packets[0], 0x77, config.max_pixels_w)
    &&& terminal::tells(packets[0], 0x68, config.max_pixels_h)
    &&& forall|i: int|
        0 <= i < packets.len() ==> terminal::has_only(#[trigger] packets[i], pixel_key_names())
}



} // verus!
