//! Whole tables: which of them are rewritten, and the rows in which they are shown.

use vstd::prelude::*;

use crate::bytes;
use crate::bytes::{contains_byte, contains_bytes, extend};
use crate::config::Config;
use crate::image_id::{IdLog, ImageIds};
use crate::raster::DecodeError;
use crate::render;
use crate::render::Style;
use crate::scan;
use crate::scan::{Token, TokenSpan};
use crate::table;
use crate::table::{Line, Mode};
use crate::term::Protocol;

verus! {

/// What every hex-encoded value starts with.
pub const BYTEA_MARK: [u8; 2] = [0x5c, 0x78];

/// What becomes of the input.
#[derive(Clone, Debug, Eq, PartialEq)]
pub struct Processed {
    pub bytes: Vec<u8>,
    pub rewritten: bool,
    pub passthrough: bool,
    pub interactive: Option<InteractiveOutput>,
}

/// A rewritten table in rows, to be shown one at a time between what stands before and
/// after them.
#[derive(Clone, Debug, Eq, PartialEq)]
pub struct InteractiveOutput {
    pub prefix: Vec<u8>,
    pub rows: Vec<Vec<u8>>,
    pub suffix: Vec<u8>,
}

/// What a [`Processed`] holds.
pub ghost struct Outcome {
    pub bytes: Seq<u8>,
    pub rewritten: bool,
    pub passthrough: bool,
    pub interactive: Option<RowTable>,
}

/// What an [`InteractiveOutput`] holds.
pub ghost struct RowTable {
    pub prefix: Seq<u8>,
    pub rows: Seq<Seq<u8>>,
    pub suffix: Seq<u8>,
}

impl RowTable {
    /// The whole table.
    pub open spec fn bytes(self) -> Seq<u8> {
        self.prefix + self.rows.flatten() + self.suffix
    }
}

/// The bytes of rows.
pub open spec fn row_bytes(rows: Seq<Vec<u8>>) -> Seq<Seq<u8>> {
    rows.map_values(|row: Vec<u8>| row@)
}

impl View for InteractiveOutput {
    type V = RowTable;

    open spec fn view(&self) -> RowTable {
        RowTable { prefix: self.prefix@, rows: row_bytes(self.rows@), suffix: self.suffix@ }
    }
}

impl View for Processed {
    type V = Outcome;

    open spec fn view(&self) -> Outcome {
        Outcome {
            bytes: self.bytes@,
            rewritten: self.rewritten,
            passthrough: self.passthrough,
            interactive: match self.interactive {
                Some(output) => Some(output@),
                None => None,
            },
        }
    }
}

/// Some candidate line holds a bar.
pub open spec fn some_barred(lines: Seq<Seq<u8>>, candidates: Seq<(usize, Vec<Token>)>) -> bool {
    exists|c: int|
        0 <= c < candidates.len() && table::has_bar(lines[(#[trigger] candidates[c]).0 as int])
}

/// None of the first `n` candidate lines holds a bar.
pub open spec fn none_barred(
    lines: Seq<Seq<u8>>,
    candidates: Seq<(usize, Vec<Token>)>,
    n: int,
) -> bool {
    forall|c: int| 0 <= c < n ==> !table::has_bar(lines[(#[trigger] candidates[c]).0 as int])
}

/// The layout of a table of one column whose images stand in the candidate lines; nothing
/// for any other table.
///
/// Only a table that is not expanded is held against its candidates, up to the first that
/// holds a bar.
pub fn classify(lines: &[Line<'_>], candidate_lines: &[(usize, Vec<Token>)]) -> (r: Option<Mode>)
    requires
        !table::has_header(table::line_bytes(lines@), 0, lines@.len() as int) ==> forall|c: int|
            0 <= c < candidate_lines@.len() && #[trigger] none_barred(
                table::line_bytes(lines@),
                candidate_lines@,
                c,
            ) ==> candidate_lines@[c].0 < lines@.len(),
    ensures
        r == table::mode_of(
            table::line_bytes(lines@),
            some_barred(table::line_bytes(lines@), candidate_lines@),
        ),
{
    if table::looks_expanded(lines) {
        return if table::expanded_is_single_column(lines) {
            Some(Mode::Expanded)
        } else {
            None
        };
    }
    let mut i: usize = 0;
    while i < candidate_lines.len()
        invariant
            i <= candidate_lines@.len(),
            !table::has_header(table::line_bytes(lines@), 0, lines@.len() as int),
            forall|c: int|
                0 <= c < candidate_lines@.len() && #[trigger] none_barred(
                    table::line_bytes(lines@),
                    candidate_lines@,
                    c,
                ) ==> candidate_lines@[c].0 < lines@.len(),
            none_barred(table::line_bytes(lines@), candidate_lines@, i as int),
        decreases candidate_lines@.len() - i,
    {
        let at: usize = candidate_lines[i].0;
        assert(table::line_bytes(lines@)[at as int] == lines@[at as int].bytes@);
        if contains_byte(lines[at].content_without_newline(), table::PIPE) {
            return None;
        }
        i += 1;
    }
    if table::looks_aligned(lines) {
        Some(Mode::Aligned)
    } else {
        Some(Mode::Unaligned)
    }
}

/// The line is too large to be scanned, and may hold an image.
pub open spec fn is_unscanned(line: Seq<u8>, cap: int) -> bool {
    line.len() > cap && bytes::occurs(line, BYTEA_MARK@)
}

/// How a table is rewritten; nothing where it is left as it is.
pub open spec fn rewrite_mode(input: Seq<u8>, protocol: Protocol, config: Config) -> Option<Mode> {
    let all = table::lines(input);
    let cap = config.max_row_bytes as int;
    if config.disable || protocol == Protocol::Plain {
        None
    } else if exists|i: int| 0 <= i < all.len() && is_unscanned(#[trigger] all[i], cap) {
        None
    } else if forall|i: int| 0 <= i < all.len() ==> !render::has_image(#[trigger] all[i], cap) {
        None
    } else {
        table::mode_of(
            all,
            exists|i: int|
                0 <= i < all.len() && render::has_image(#[trigger] all[i], cap) && table::has_bar(
                    all[i],
                ),
        )
    }
}

/// The candidates are the lines with an image, in order, each with the tokens of its images.
pub open spec fn are_candidates(
    candidates: Seq<(usize, Vec<Token>)>,
    lines: Seq<Seq<u8>>,
    cap: int,
) -> bool {
    &&& forall|c: int|
        0 <= c < candidates.len() ==> {
            let (i, tokens) = #[trigger] candidates[c];
            &&& i < lines.len()
            &&& render::has_image(lines[i as int], cap)
            &&& scan::spans(tokens@) == render::images_of(lines[i as int], cap)
        }
    &&& forall|c: int, d: int|
        0 <= c < d < candidates.len() ==> (#[trigger] candidates[c]).0 < (
        #[trigger] candidates[d]).0
    &&& forall|i: int|
        0 <= i < lines.len() && render::has_image(#[trigger] lines[i], cap) ==> exists|c: int|
            0 <= c < candidates.len() && (#[trigger] candidates[c]).0 == i
}

/// The tokens of the first candidate for line `i`; nothing where there is none.
pub open spec fn line_tokens(candidates: Seq<(usize, Vec<Token>)>, i: int) -> Seq<TokenSpan>
    decreases candidates.len(),
{
    if candidates.len() == 0 {
        Seq::empty()
    } else if candidates[0].0 == i {
        scan::spans(candidates[0].1@)
    } else {
        line_tokens(candidates.skip(1), i)
    }
}

/// The tokens of each of `n` lines, but none before line `from` and none from line `to` on.
pub open spec fn tokens_between(
    candidates: Seq<(usize, Vec<Token>)>,
    n: nat,
    from: int,
    to: int,
) -> Seq<Seq<TokenSpan>> {
    Seq::new(
        n,
        |i: int|
            if from <= i < to {
                line_tokens(candidates, i)
            } else {
                Seq::empty()
            },
    )
}

/// The tokens of the lines from `from` up to `to` stand in them, in order and without overlap.
pub open spec fn are_renderable(
    candidates: Seq<(usize, Vec<Token>)>,
    lines: Seq<Seq<u8>>,
    protocol: Protocol,
    from: int,
    to: int,
) -> bool {
    forall|i: int|
        from <= i < to ==> {
            let tokens = #[trigger] line_tokens(candidates, i);
            &&& render::are_orderly(tokens, lines[i].len() as int)
            &&& render::are_sendable(tokens, protocol)
        }
}

/// The tokens of a line are those of the first candidate for it.
proof fn lemma_line_tokens(candidates: Seq<(usize, Vec<Token>)>, i: int, c: int)
    requires
        0 <= c <= candidates.len(),
        forall|d: int| 0 <= d < c ==> (#[trigger] candidates[d]).0 != i,
    ensures
        line_tokens(candidates, i) == if c < candidates.len() && candidates[c].0 == i {
            scan::spans(candidates[c].1@)
        } else {
            line_tokens(candidates.skip(c), i)
        },
    decreases c,
{
    if c > 0 {
        assert(candidates[0].0 != i);
        let rest = candidates.skip(1);
        assert forall|d: int| 0 <= d < c - 1 implies (#[trigger] rest[d]).0 != i by {
            assert(rest[d] == candidates[d + 1]);
        }
        lemma_line_tokens(rest, i, c - 1);
        assert(rest.skip(c - 1) =~= candidates.skip(c));
    } else {
        assert(candidates.skip(0) =~= candidates);
    }
}

/// The first line from `from` on with an image, or the number of lines.
pub open spec fn image_line_from(lines: Seq<Seq<u8>>, cap: int, from: int) -> int
    decreases lines.len() - from,
{
    if from >= lines.len() || render::has_image(lines[from], cap) {
        from
    } else {
        image_line_from(lines, cap, from + 1)
    }
}

/// The last line before `to` with an image, or -1.
pub open spec fn image_line_before(lines: Seq<Seq<u8>>, cap: int, to: int) -> int
    decreases to,
{
    if to <= 0 || render::has_image(lines[to - 1], cap) {
        to - 1
    } else {
        image_line_before(lines, cap, to - 1)
    }
}

/// The first line with an image.
pub open spec fn first_image_line(lines: Seq<Seq<u8>>, cap: int) -> int {
    image_line_from(lines, cap, 0)
}

/// The last line with an image.
pub open spec fn last_image_line(lines: Seq<Seq<u8>>, cap: int) -> int {
    image_line_before(lines, cap, lines.len() as int)
}

proof fn lemma_image_line_from(lines: Seq<Seq<u8>>, cap: int, from: int, i: int)
    requires
        0 <= from <= i < lines.len(),
        render::has_image(lines[i], cap),
        forall|j: int| from <= j < i ==> !render::has_image(#[trigger] lines[j], cap),
    ensures
        image_line_from(lines, cap, from) == i,
    decreases i - from,
{
    if from < i {
        assert(!render::has_image(lines[from], cap));
        lemma_image_line_from(lines, cap, from + 1, i);
    }
}

proof fn lemma_image_line_before(lines: Seq<Seq<u8>>, cap: int, to: int, i: int)
    requires
        0 <= i < to <= lines.len(),
        render::has_image(lines[i], cap),
        forall|j: int| i < j < to ==> !render::has_image(#[trigger] lines[j], cap),
    ensures
        image_line_before(lines, cap, to) == i,
    decreases to - i,
{
    if i < to - 1 {
        assert(!render::has_image(lines[to - 1], cap));
        lemma_image_line_before(lines, cap, to - 1, i);
    }
}

/// The first and the last candidate are the first and the last line with an image.
proof fn lemma_candidate_range(
    candidates: Seq<(usize, Vec<Token>)>,
    lines: Seq<Seq<u8>>,
    cap: int,
)
    requires
        are_candidates(candidates, lines, cap),
        candidates.len() > 0,
    ensures
        candidates[0].0 == first_image_line(lines, cap),
        candidates.last().0 == last_image_line(lines, cap),
        0 <= first_image_line(lines, cap) <= last_image_line(lines, cap) < lines.len(),
        forall|i: int|
            0 <= i < lines.len() && render::has_image(#[trigger] lines[i], cap) ==> {
                first_image_line(lines, cap) <= i <= last_image_line(lines, cap)
            },
{
    let first = candidates[0].0 as int;
    let last = candidates.last().0 as int;
    assert forall|i: int|
        0 <= i < lines.len() && render::has_image(#[trigger] lines[i], cap) implies first <= i
        <= last by {
        let c = choose|c: int| 0 <= c < candidates.len() && (#[trigger] candidates[c]).0 == i;
        assert(candidates[c].0 == i);
        assert(c > 0 ==> candidates[0].0 < candidates[c].0);
        assert(c < candidates.len() - 1 ==> candidates[c].0 < candidates[candidates.len() - 1].0);
    }
    lemma_image_line_from(lines, cap, 0, first);
    lemma_image_line_before(lines, cap, lines.len() as int, last);
}

/// The tokens of a candidate line; nothing for any other line.
pub fn candidate_tokens(candidate_lines: &[(usize, Vec<Token>)], line_index: usize) -> (r: Option<
    &[Token],
>)
    ensures
        match r {
            Some(tokens) => exists|c: int|
                {
                    &&& 0 <= c < candidate_lines@.len()
                    &&& (#[trigger] candidate_lines@[c]).0 == line_index
                    &&& candidate_lines@[c].1@ == tokens@
                    &&& forall|d: int|
                        0 <= d < c ==> (#[trigger] candidate_lines@[d]).0 != line_index
                },
            None => forall|c: int|
                0 <= c < candidate_lines@.len() ==> (#[trigger] candidate_lines@[c]).0
                    != line_index,
        },
{
    let mut c: usize = 0;
    while c < candidate_lines.len()
        invariant
            c <= candidate_lines@.len(),
            forall|d: int| 0 <= d < c ==> (#[trigger] candidate_lines@[d]).0 != line_index,
        decreases candidate_lines@.len() - c,
    {
        if candidate_lines[c].0 == line_index {
            return Some(candidate_lines[c].1.as_slice());
        }
        c += 1;
    }
    None
}

/// Appends what a line becomes.
fn render_line(
    out: &mut Vec<u8>,
    lines: &[Line<'_>],
    candidate_lines: &[(usize, Vec<Token>)],
    line_index: usize,
    mode: Mode,
    protocol: Protocol,
    config: &Config,
    ids: &mut ImageIds,
) -> (r: Result<(), DecodeError>)
    requires
        are_renderable(
            candidate_lines@,
            table::line_bytes(lines@),
            protocol,
            line_index as int,
            line_index + 1,
        ),
        line_index < lines@.len(),
    ensures
        r is Ok,
        old(ids)@.extends_to(final(ids)@),
        old(out)@.is_prefix_of(final(out)@),
        ({
            let style = Style { mode, protocol, config: *config };
            let images = line_tokens(candidate_lines@, line_index as int);
            let before = old(ids)@.clock.len();
            &&& final(ids)@.clock.len() == before + render::draws(images, style, images.len())
            &&& render::is_rendered(
                lines@[line_index as int].bytes@,
                images,
                style,
                final(ids)@,
                before as int,
                final(out)@.skip(old(out)@.len() as int),
            )
        }),
{
    let ghost images = line_tokens(candidate_lines@, line_index as int);
    let ghost line = lines@[line_index as int].bytes@;
    assert(table::line_bytes(lines@)[line_index as int] == line);
    match candidate_tokens(candidate_lines, line_index) {
        Some(tokens) => {
            proof {
                let c = choose|c: int|
                    {
                        &&& 0 <= c < candidate_lines@.len()
                        &&& (#[trigger] candidate_lines@[c]).0 == line_index
                        &&& candidate_lines@[c].1@ == tokens@
                        &&& forall|d: int|
                            0 <= d < c ==> (#[trigger] candidate_lines@[d]).0 != line_index
                    };
                lemma_line_tokens(candidate_lines@, line_index as int, c);
                assert(images == scan::spans(tokens@));
            }
            let r = render::rewrite_line(
                out,
                lines[line_index].bytes,
                tokens,
                mode,
                protocol,
                config,
                ids,
            );
            proof {
                let style = Style { mode, protocol, config: *config };
                let written = choose|written: Seq<Seq<u8>>|
                    {
                        &&& written.len() == images.len()
                        &&& #[trigger] render::are_written(
                            line,
                            images,
                            style,
                            ids@,
                            old(ids)@.clock.len() as int,
                            written,
                        )
                        &&& out@ == old(out)@ + render::with_images(
                            render::held(line, images, mode),
                            written,
                        )
                    };
                let text = render::with_images(render::held(line, images, mode), written);
                assert(out@.skip(old(out)@.len() as int) =~= text);
                if images.len() == 0 {
                    assert(text =~= line);
                }
            }
            r
        },
        None => {
            extend(out, lines[line_index].bytes);
            proof {
                assert(out@.skip(old(out)@.len() as int) =~= line);
                lemma_line_tokens(
                    candidate_lines@,
                    line_index as int,
                    candidate_lines@.len() as int,
                );
            }
            Ok(())
        },
    }
}

impl InteractiveOutput {
    /// The whole table.
    pub fn bytes(&self) -> (r: Vec<u8>)
        ensures
            r@ == self@.bytes(),
    {
        let mut out: Vec<u8> = Vec::new();
        extend(&mut out, self.prefix.as_slice());
        let ghost rows = row_bytes(self.rows@);
        let mut i: usize = 0;
        assert(rows.take(0).flatten() =~= Seq::empty());
        assert(out@ =~= self.prefix@ + rows.take(0).flatten());
        while i < self.rows.len()
            invariant
                rows == row_bytes(self.rows@),
                i <= self.rows@.len(),
                out@ == self.prefix@ + rows.take(i as int).flatten(),
            decreases self.rows@.len() - i,
        {
            extend(&mut out, self.rows[i].as_slice());
            proof {
                lemma_flatten_take_next(rows, i as int);
            }
            assert(out@ =~= self.prefix@ + rows.take(i + 1).flatten());
            i += 1;
        }
        assert(rows.take(i as int) =~= rows);
        extend(&mut out, self.suffix.as_slice());
        out
    }
}

/// One more sequence goes to the end of those before it.
proof fn lemma_flatten_take_next(all: Seq<Seq<u8>>, n: int)
    requires
        0 <= n < all.len(),
    ensures
        all.take(n + 1).flatten() == all.take(n).flatten() + all[n],
{
    assert(all.take(n + 1) =~= all.take(n).push(all[n]));
    all.take(n).lemma_flatten_push(all[n]);
}

/// The lines from `from` up to `to`, one after the other.
fn join_lines(lines: &[Line<'_>], from: usize, to: usize) -> (r: Vec<u8>)
    requires
        from <= to <= lines@.len(),
    ensures
        r@ == table::line_bytes(lines@).subrange(from as int, to as int).flatten(),
{
    let ghost part = table::line_bytes(lines@).subrange(from as int, to as int);
    let mut out: Vec<u8> = Vec::new();
    let mut i: usize = from;
    assert(part.take(0).flatten() =~= out@);
    while i < to
        invariant
            part == table::line_bytes(lines@).subrange(from as int, to as int),
            from <= i <= to <= lines@.len(),
            out@ == part.take(i - from).flatten(),
        decreases to - i,
    {
        extend(&mut out, lines[i].bytes);
        proof {
            lemma_flatten_take_next(part, i - from);
        }
        i += 1;
    }
    assert(part.take(to - from) =~= part);
    out
}

/// `rendered` holds what all lines become, where `images` are those of each line, with the
/// draws from `before` to `after`.
pub open spec fn is_rendering(
    lines: Seq<Seq<u8>>,
    images: Seq<Seq<TokenSpan>>,
    style: Style,
    before: IdLog,
    after: IdLog,
    rendered: Seq<Seq<u8>>,
) -> bool {
    &&& rendered.len() == lines.len()
    &&& render::are_rendered(lines, images, style, after, before.clock.len() as int, rendered)
    &&& before.extends_to(after)
    &&& after.clock.len() == before.clock.len() + render::draws_before(images, style, lines.len())
}

/// A table with one row for each line from `first` to `last`.
pub open spec fn tabular_rows(rendered: Seq<Seq<u8>>, first: int, last: int) -> RowTable {
    RowTable {
        prefix: rendered.take(first).flatten(),
        rows: rendered.subrange(first, last + 1),
        suffix: rendered.skip(last + 1).flatten(),
    }
}

/// A table with rows from the first to the last candidate can be made.
pub open spec fn is_tabular_usable(
    candidates: Seq<(usize, Vec<Token>)>,
    lines: Seq<Seq<u8>>,
    protocol: Protocol,
) -> bool {
    &&& candidates.len() > 0
    &&& candidates[0].0 <= candidates.last().0 < lines.len()
    &&& are_renderable(
        candidates,
        lines,
        protocol,
        candidates[0].0 as int,
        candidates.last().0 + 1,
    )
}

/// A table with one row for each line from the first to the last candidate.
pub fn build_tabular_interactive_output(
    lines: &[Line<'_>],
    candidate_lines: &[(usize, Vec<Token>)],
    mode: Mode,
    protocol: Protocol,
    config: &Config,
    ids: &mut ImageIds,
) -> (r: Result<InteractiveOutput, DecodeError>)
    requires
        is_tabular_usable(candidate_lines@, table::line_bytes(lines@), protocol),
    ensures
        r matches Ok(output) && exists|rendered: Seq<Seq<u8>>|
            {
                &&& #[trigger] is_rendering(
                    table::line_bytes(lines@),
                    tokens_between(
                        candidate_lines@,
                        lines@.len(),
                        candidate_lines@[0].0 as int,
                        candidate_lines@.last().0 + 1,
                    ),
                    Style { mode, protocol, config: *config },
                    old(ids)@,
                    final(ids)@,
                    rendered,
                )
                &&& output@ == tabular_rows(
                    rendered,
                    candidate_lines@[0].0 as int,
                    candidate_lines@.last().0 as int,
                )
            },
{
    let ghost all = table::line_bytes(lines@);
    let ghost images = tokens_between(
        candidate_lines@,
        all.len(),
        candidate_lines@[0].0 as int,
        candidate_lines@.last().0 + 1,
    );
    let ghost style = Style { mode, protocol, config: *config };
    let ghost at = old(ids)@.clock.len() as int;
    let first_candidate: usize = candidate_lines[0].0;
    let last_candidate: usize = candidate_lines[candidate_lines.len() - 1].0;
    let count: usize = lines.len();
    proof {
        render::lemma_rendered_plain(
            all,
            images,
            style,
            ids@,
            at,
            Seq::empty(),
            first_candidate as int,
        );
    }
    let prefix: Vec<u8> = join_lines(lines, 0, first_candidate);
    let ghost mut rendered: Seq<Seq<u8>> = all.subrange(0, first_candidate as int);
    assert(Seq::<Seq<u8>>::empty() + rendered =~= rendered);
    let mut rows: Vec<Vec<u8>> = Vec::new();
    let mut i: usize = first_candidate;
    assert(row_bytes(rows@) =~= rendered.subrange(i as int, i as int));
    while i <= last_candidate
        invariant
            all == table::line_bytes(lines@),
            style == (Style { mode, protocol, config: *config }),
            at == old(ids)@.clock.len(),
            are_renderable(
                candidate_lines@,
                all,
                protocol,
                first_candidate as int,
                last_candidate + 1,
            ),
            images == tokens_between(
                candidate_lines@,
                all.len(),
                first_candidate as int,
                last_candidate + 1,
            ),
            first_candidate <= i <= last_candidate + 1 <= count == lines@.len(),
            rendered.len() == i,
            rendered.take(first_candidate as int) == all.subrange(0, first_candidate as int),
            render::are_rendered(all, images, style, ids@, at, rendered),
            old(ids)@.extends_to(ids@),
            ids@.clock.len() == at + render::draws_before(images, style, i as nat),
            row_bytes(rows@) == rendered.subrange(first_candidate as int, i as int),
        decreases last_candidate + 1 - i,
    {
        let mut row: Vec<u8> = Vec::new();
        let ghost log = ids@;
        match render_line(
            &mut row,
            lines,
            candidate_lines,
            i,
            mode,
            protocol,
            config,
            ids,
        ) {
            Ok(()) => {},
            Err(error) => return Err(error),
        }
        proof {
            assert(row@.skip(0) =~= row@);
            assert(all[i as int] == lines@[i as int].bytes@);
            render::lemma_rendered_next(all, images, style, log, ids@, at, rendered, row@);
            let more = rendered.push(row@);
            assert(more.take(first_candidate as int) =~= rendered.take(first_candidate as int));
            assert(more.subrange(first_candidate as int, i + 1) =~= rendered.subrange(
                first_candidate as int,
                i as int,
            ).push(row@));
            rendered = more;
        }
        let ghost before = rows@;
        rows.push(row);
        assert(row_bytes(rows@) =~= row_bytes(before).push(row@));
        i += 1;
    }
    let suffix: Vec<u8> = join_lines(lines, i, count);
    let output = InteractiveOutput { prefix, rows, suffix };
    proof {
        render::lemma_rendered_plain(all, images, style, ids@, at, rendered, all.len() as int);
        let whole = rendered + all.subrange(i as int, all.len() as int);
        assert(whole.take(first_candidate as int) =~= rendered.take(first_candidate as int));
        assert(whole.subrange(first_candidate as int, i as int) =~= rendered.subrange(
            first_candidate as int,
            i as int,
        ));
        assert(whole.skip(i as int) =~= all.subrange(i as int, all.len() as int));
        assert(is_rendering(all, images, style, old(ids)@, ids@, whole));
        assert(output@ == tabular_rows(whole, first_candidate as int, last_candidate as int));
    }
    Ok(output)
}

/// The last line up to `i` that starts a record, but on the way back from `i` not beyond
/// `stop`.
pub open spec fn record_start(lines: Seq<Seq<u8>>, i: int, stop: int) -> int
    decreases i,
{
    if i <= 0 || i == stop || table::is_header(lines[i]) {
        i
    } else {
        record_start(lines, i - 1, stop)
    }
}

/// The first line from `from` on that starts a record, or the number of lines.
pub open spec fn next_header(lines: Seq<Seq<u8>>, from: int) -> int
    decreases lines.len() - from,
{
    if from >= lines.len() {
        lines.len() as int
    } else if table::is_header(lines[from]) {
        from
    } else {
        next_header(lines, from + 1)
    }
}

/// The records from line `from` up to `to`, each with all its lines.
pub open spec fn record_rows(
    lines: Seq<Seq<u8>>,
    rendered: Seq<Seq<u8>>,
    from: int,
    to: int,
) -> Seq<Seq<u8>>
    decreases to - from,
    via record_rows_decreases
{
    if to <= from || from < 0 {
        Seq::empty()
    } else {
        let start = record_start(lines, to - 1, from);
        record_rows(lines, rendered, from, start).push(rendered.subrange(start, to).flatten())
    }
}

#[via_fn]
proof fn record_rows_decreases(lines: Seq<Seq<u8>>, rendered: Seq<Seq<u8>>, from: int, to: int) {
    if to > from && from >= 0 {
        lemma_record_start(lines, to - 1, from);
    }
}

proof fn lemma_record_start(lines: Seq<Seq<u8>>, i: int, stop: int)
    requires
        0 <= stop <= i,
    ensures
        stop <= record_start(lines, i, stop) <= i,
        record_start(lines, i, stop) > stop ==> table::is_header(
            lines[record_start(lines, i, stop)],
        ),
        !table::has_header(lines, record_start(lines, i, stop) + 1, i + 1),
    decreases i - stop,
{
    if i > stop && !table::is_header(lines[i]) {
        lemma_record_start(lines, i - 1, stop);
    }
}

proof fn lemma_record_start_is(lines: Seq<Seq<u8>>, i: int, stop: int, start: int)
    requires
        0 <= stop <= start <= i,
        start == stop || table::is_header(lines[start]),
        !table::has_header(lines, start + 1, i + 1),
    ensures
        record_start(lines, i, stop) == start,
    decreases i - start,
{
    if start < i {
        assert(!table::is_header(lines[i]));
        lemma_record_start_is(lines, i - 1, stop, start);
    }
}

proof fn lemma_next_header(lines: Seq<Seq<u8>>, from: int)
    requires
        0 <= from <= lines.len(),
    ensures
        from <= next_header(lines, from) <= lines.len(),
        next_header(lines, from) < lines.len() ==> table::is_header(
            lines[next_header(lines, from)],
        ),
        !table::has_header(lines, from, next_header(lines, from)),
    decreases lines.len() - from,
{
    if from < lines.len() && !table::is_header(lines[from]) {
        lemma_next_header(lines, from + 1);
    }
}

/// The records depend on their own lines only.
proof fn lemma_record_rows_agree(
    lines: Seq<Seq<u8>>,
    rendered: Seq<Seq<u8>>,
    more: Seq<Seq<u8>>,
    from: int,
    to: int,
)
    requires
        0 <= from,
        to <= rendered.len(),
        rendered.is_prefix_of(more),
    ensures
        record_rows(lines, rendered, from, to) == record_rows(lines, more, from, to),
    decreases to - from,
{
    if to > from {
        let start = record_start(lines, to - 1, from);
        lemma_record_start(lines, to - 1, from);
        lemma_record_rows_agree(lines, rendered, more, from, start);
        assert forall|i: int| 0 <= i < rendered.len() implies rendered[i] == more[i] by {
            assert(rendered[i] == more.subrange(0, rendered.len() as int)[i]);
        }
        assert(rendered.subrange(start, to) =~= more.subrange(start, to));
    }
}

/// The line that starts the record of line `first`.
pub open spec fn first_record(lines: Seq<Seq<u8>>, first: int) -> int {
    record_start(lines, first, 0)
}

/// The end of the record of line `last`, where the first record is that of line `first`.
pub open spec fn last_record_end(lines: Seq<Seq<u8>>, first: int, last: int) -> int {
    next_header(lines, record_start(lines, last, first_record(lines, first)) + 1)
}

/// An expanded table with one row for each record from that of line `first` to that of line
/// `last`.
pub open spec fn expanded_rows(
    lines: Seq<Seq<u8>>,
    rendered: Seq<Seq<u8>>,
    first: int,
    last: int,
) -> RowTable {
    let start = first_record(lines, first);
    let end = last_record_end(lines, first, last);
    RowTable {
        prefix: rendered.take(start).flatten(),
        rows: record_rows(lines, rendered, start, end),
        suffix: rendered.skip(end).flatten(),
    }
}

/// The way back from line `i` ends at `stop` or at a line that starts a record.
pub open spec fn has_record_start(lines: Seq<Seq<u8>>, i: int, stop: int) -> bool {
    stop <= i || table::has_header(lines, 0, i + 1)
}

/// The last line up to `line_index` that starts a record, but on the way back from
/// `line_index` not beyond `stop_at`.
pub fn record_start_for(lines: &[Line<'_>], line_index: usize, stop_at: usize) -> (r: usize)
    requires
        line_index < lines@.len(),
        has_record_start(table::line_bytes(lines@), line_index as int, stop_at as int),
    ensures
        r == record_start(table::line_bytes(lines@), line_index as int, stop_at as int),
        r <= line_index,
        stop_at <= line_index ==> stop_at <= r,
{
    let mut index: usize = line_index;
    loop
        invariant
            index <= line_index < lines@.len(),
            stop_at <= line_index ==> stop_at <= index,
            has_record_start(table::line_bytes(lines@), index as int, stop_at as int),
            record_start(table::line_bytes(lines@), line_index as int, stop_at as int)
                == record_start(table::line_bytes(lines@), index as int, stop_at as int),
        decreases index,
    {
        assert(table::line_bytes(lines@)[index as int] == lines@[index as int].bytes@);
        if table::is_record_start(lines[index]) || index == stop_at {
            return index;
        }
        proof {
            if stop_at > index {
                let h = choose|h: int|
                    0 <= h < index + 1 && table::is_header(
                        #[trigger] table::line_bytes(lines@)[h],
                    );
                assert(h < index);
            }
        }
        index -= 1;
    }
}

/// The first line from `start_at` on that starts a record, or the number of lines.
pub fn next_record_start(lines: &[Line<'_>], start_at: usize) -> (r: usize)
    requires
        start_at <= lines@.len(),
    ensures
        r == next_header(table::line_bytes(lines@), start_at as int),
        start_at <= r <= lines@.len(),
{
    let mut index: usize = start_at;
    while index < lines.len()
        invariant
            start_at <= index <= lines@.len(),
            next_header(table::line_bytes(lines@), start_at as int) == next_header(
                table::line_bytes(lines@),
                index as int,
            ),
        decreases lines@.len() - index,
    {
        assert(table::line_bytes(lines@)[index as int] == lines@[index as int].bytes@);
        if table::is_record_start(lines[index]) {
            return index;
        }
        index += 1;
    }
    index
}

/// An expanded table with rows from the record of the first candidate to that of the last can
/// be made.
pub open spec fn is_expanded_usable(
    candidates: Seq<(usize, Vec<Token>)>,
    lines: Seq<Seq<u8>>,
    protocol: Protocol,
) -> bool {
    let first = candidates[0].0 as int;
    let last = candidates.last().0 as int;
    &&& candidates.len() > 0
    &&& first < lines.len()
    &&& last < lines.len()
    &&& has_record_start(lines, last, first_record(lines, first))
    &&& are_renderable(
        candidates,
        lines,
        protocol,
        first_record(lines, first),
        last_record_end(lines, first, last),
    )
}

/// An expanded table with one row for each record from that of the first candidate to that of
/// the last.
pub fn build_expanded_interactive_output(
    lines: &[Line<'_>],
    candidate_lines: &[(usize, Vec<Token>)],
    protocol: Protocol,
    config: &Config,
    ids: &mut ImageIds,
) -> (r: Result<InteractiveOutput, DecodeError>)
    requires
        is_expanded_usable(candidate_lines@, table::line_bytes(lines@), protocol),
    ensures
        r matches Ok(output) && exists|rendered: Seq<Seq<u8>>|
            {
                &&& #[trigger] is_rendering(
                    table::line_bytes(lines@),
                    tokens_between(
                        candidate_lines@,
                        lines@.len(),
                        first_record(table::line_bytes(lines@), candidate_lines@[0].0 as int),
                        last_record_end(
                            table::line_bytes(lines@),
                            candidate_lines@[0].0 as int,
                            candidate_lines@.last().0 as int,
                        ),
                    ),
                    Style { mode: Mode::Expanded, protocol, config: *config },
                    old(ids)@,
                    final(ids)@,
                    rendered,
                )
                &&& output@ == expanded_rows(
                    table::line_bytes(lines@),
                    rendered,
                    candidate_lines@[0].0 as int,
                    candidate_lines@.last().0 as int,
                )
            },
{
    let ghost all = table::line_bytes(lines@);
    let ghost style = Style { mode: Mode::Expanded, protocol, config: *config };
    let ghost at = old(ids)@.clock.len() as int;
    let first_candidate: usize = candidate_lines[0].0;
    let last_candidate: usize = candidate_lines[candidate_lines.len() - 1].0;
    let count: usize = lines.len();
    let first_record_start: usize = record_start_for(lines, first_candidate, 0);
    let last_record_start: usize = record_start_for(lines, last_candidate, first_record_start);
    let last_record_end: usize = next_record_start(lines, last_record_start + 1);
    let ghost start = first_record_start as int;
    let ghost images = tokens_between(
        candidate_lines@,
        all.len(),
        start,
        last_record_end as int,
    );
    proof {
        render::lemma_rendered_plain(all, images, style, ids@, at, Seq::empty(), start);
    }
    let prefix: Vec<u8> = join_lines(lines, 0, first_record_start);
    let ghost mut rendered: Seq<Seq<u8>> = all.subrange(0, start);
    assert(Seq::<Seq<u8>>::empty() + rendered =~= rendered);
    let mut rows: Vec<Vec<u8>> = Vec::new();
    let mut row_start: usize = first_record_start;
    assert(row_bytes(rows@) =~= record_rows(all, rendered, start, row_start as int));
    while row_start < last_record_end
        invariant
            all == table::line_bytes(lines@),
            style == (Style { mode: Mode::Expanded, protocol, config: *config }),
            at == old(ids)@.clock.len(),
            are_renderable(candidate_lines@, all, protocol, start, last_record_end as int),
            images == tokens_between(
                candidate_lines@,
                all.len(),
                start,
                last_record_end as int,
            ),
            start == first_record_start <= row_start <= count == lines@.len(),
            last_record_end <= count,
            row_start == start || row_start <= last_record_end,
            row_start == start || row_start == last_record_end || table::is_header(
                all[row_start as int],
            ),
            rendered.len() == row_start,
            rendered.take(start) == all.subrange(0, start),
            render::are_rendered(all, images, style, ids@, at, rendered),
            old(ids)@.extends_to(ids@),
            ids@.clock.len() == at + render::draws_before(images, style, row_start as nat),
            row_bytes(rows@) == record_rows(all, rendered, start, row_start as int),
        decreases last_record_end - row_start,
    {
        let next: usize = next_record_start(lines, row_start + 1);
        let row_end: usize = if next < last_record_end {
            next
        } else {
            last_record_end
        };
        proof {
            lemma_next_header(all, row_start + 1);
            lemma_record_start_is(all, row_end - 1, start, row_start as int);
        }
        let ghost earlier = rendered;
        let mut row: Vec<u8> = Vec::new();
        let mut i: usize = row_start;
        assert(rendered.subrange(i as int, i as int).flatten() =~= Seq::empty());
        while i < row_end
            invariant
                all == table::line_bytes(lines@),
                style == (Style { mode: Mode::Expanded, protocol, config: *config }),
                at == old(ids)@.clock.len(),
                are_renderable(candidate_lines@, all, protocol, start, last_record_end as int),
                images == tokens_between(
                    candidate_lines@,
                    all.len(),
                    start,
                    last_record_end as int,
                ),
                start == first_record_start <= row_start <= i <= row_end <= last_record_end,
                last_record_end <= count == lines@.len(),
                rendered.len() == i,
                earlier.is_prefix_of(rendered),
                rendered.take(start) == all.subrange(0, start),
                render::are_rendered(all, images, style, ids@, at, rendered),
                old(ids)@.extends_to(ids@),
                ids@.clock.len() == at + render::draws_before(images, style, i as nat),
                row@ == rendered.subrange(row_start as int, i as int).flatten(),
            decreases row_end - i,
        {
            let ghost log = ids@;
            let ghost done = row@;
            match render_line(
                &mut row,
                lines,
                candidate_lines,
                i,
                Mode::Expanded,
                protocol,
                config,
                ids,
            ) {
                Ok(()) => {},
                Err(error) => return Err(error),
            }
            proof {
                let text = row@.skip(done.len() as int);
                assert(row@ =~= done + text);
                assert(all[i as int] == lines@[i as int].bytes@);
                render::lemma_rendered_next(all, images, style, log, ids@, at, rendered, text);
                let more = rendered.push(text);
                let part = rendered.subrange(row_start as int, i as int);
                assert(more.subrange(row_start as int, i + 1) =~= part.push(text));
                part.lemma_flatten_push(text);
                assert(more.take(start) =~= rendered.take(start));
                assert(earlier =~= more.subrange(0, earlier.len() as int));
                rendered = more;
            }
            i += 1;
        }
        let ghost before = rows@;
        rows.push(row);
        proof {
            lemma_record_rows_agree(all, earlier, rendered, start, row_start as int);
            assert(row_bytes(rows@) =~= row_bytes(before).push(row@));
        }
        row_start = row_end;
    }
    let suffix: Vec<u8> = join_lines(lines, last_record_end, count);
    let output = InteractiveOutput { prefix, rows, suffix };
    proof {
        let end = last_record_end as int;
        render::lemma_rendered_plain(all, images, style, ids@, at, rendered, all.len() as int);
        let whole = rendered + all.subrange(row_start as int, all.len() as int);
        assert(whole.take(start) =~= rendered.take(start));
        assert(rendered =~= whole.subrange(0, rendered.len() as int));
        lemma_record_rows_agree(all, rendered, whole, start, end);
        assert forall|i: int| end <= i < start implies whole[i] == #[trigger] all[i] by {
            assert(whole[i] == whole.take(start)[i]);
            assert(all[i] == all.subrange(0, start)[i]);
        }
        assert(whole.skip(end) =~= all.subrange(end, all.len() as int));
        assert(is_rendering(all, images, style, old(ids)@, ids@, whole));
        assert(output@ == expanded_rows(
            all,
            whole,
            first_candidate as int,
            last_candidate as int,
        ));
    }
    Ok(output)
}

/// A rewritten table in rows from line `first` to line `last`: lines, or in an expanded table
/// records.
pub open spec fn row_table(
    lines: Seq<Seq<u8>>,
    rendered: Seq<Seq<u8>>,
    mode: Mode,
    first: int,
    last: int,
) -> RowTable {
    match mode {
        Mode::Aligned | Mode::Unaligned => tabular_rows(rendered, first, last),
        Mode::Expanded => expanded_rows(lines, rendered, first, last),
    }
}

/// The first line that is shown in rows.
pub open spec fn shown_start(lines: Seq<Seq<u8>>, mode: Mode, first: int) -> int {
    match mode {
        Mode::Aligned | Mode::Unaligned => first,
        Mode::Expanded => first_record(lines, first),
    }
}

/// The line after the last that is shown in rows.
pub open spec fn shown_end(lines: Seq<Seq<u8>>, mode: Mode, first: int, last: int) -> int {
    match mode {
        Mode::Aligned | Mode::Unaligned => last + 1,
        Mode::Expanded => last_record_end(lines, first, last),
    }
}

/// A table with rows from the first to the last candidate can be made.
pub open spec fn is_usable(
    candidates: Seq<(usize, Vec<Token>)>,
    lines: Seq<Seq<u8>>,
    mode: Mode,
    protocol: Protocol,
) -> bool {
    match mode {
        Mode::Aligned | Mode::Unaligned => is_tabular_usable(candidates, lines, protocol),
        Mode::Expanded => is_expanded_usable(candidates, lines, protocol),
    }
}

/// A rewritten table in rows.
pub fn build_interactive_output(
    lines: &[Line<'_>],
    candidate_lines: &[(usize, Vec<Token>)],
    mode: Mode,
    protocol: Protocol,
    config: &Config,
    ids: &mut ImageIds,
) -> (r: Result<InteractiveOutput, DecodeError>)
    requires
        is_usable(candidate_lines@, table::line_bytes(lines@), mode, protocol),
    ensures
        r matches Ok(output) && exists|rendered: Seq<Seq<u8>>|
            {
                &&& #[trigger] is_rendering(
                    table::line_bytes(lines@),
                    tokens_between(
                        candidate_lines@,
                        lines@.len(),
                        shown_start(
                            table::line_bytes(lines@),
                            mode,
                            candidate_lines@[0].0 as int,
                        ),
                        shown_end(
                            table::line_bytes(lines@),
                            mode,
                            candidate_lines@[0].0 as int,
                            candidate_lines@.last().0 as int,
                        ),
                    ),
                    Style { mode, protocol, config: *config },
                    old(ids)@,
                    final(ids)@,
                    rendered,
                )
                &&& output@ == row_table(
                    table::line_bytes(lines@),
                    rendered,
                    mode,
                    candidate_lines@[0].0 as int,
                    candidate_lines@.last().0 as int,
                )
            },
{
    proof {
        let all = table::line_bytes(lines@);
        let first = candidate_lines@[0].0 as int;
        let last = candidate_lines@.last().0 as int;
        let images = tokens_between(
            candidate_lines@,
            lines@.len(),
            shown_start(all, mode, first),
            shown_end(all, mode, first, last),
        );
        if mode != Mode::Expanded {
            assert(images == tokens_between(candidate_lines@, lines@.len(), first, last + 1));
        }
    }
    match mode {
        Mode::Aligned | Mode::Unaligned => build_tabular_interactive_output(
            lines,
            candidate_lines,
            mode,
            protocol,
            config,
            ids,
        ),
        Mode::Expanded => build_expanded_interactive_output(
            lines,
            candidate_lines,
            protocol,
            config,
            ids,
        ),
    }
}

/// The images that are rewritten in each line.
pub open spec fn images_by_line(lines: Seq<Seq<u8>>, cap: int) -> Seq<Seq<TokenSpan>> {
    lines.map_values(|line: Seq<u8>| render::images_of(line, cap))
}

/// The input as it is.
pub open spec fn unchanged(input: Seq<u8>) -> Outcome {
    Outcome { bytes: input, rewritten: false, passthrough: true, interactive: None }
}

/// A rewritten table whose lines became `rendered`.
pub open spec fn rewritten(
    lines: Seq<Seq<u8>>,
    cap: int,
    mode: Mode,
    rendered: Seq<Seq<u8>>,
) -> Outcome {
    Outcome {
        bytes: rendered.flatten(),
        rewritten: true,
        passthrough: false,
        interactive: Some(
            row_table(
                lines,
                rendered,
                mode,
                first_image_line(lines, cap),
                last_image_line(lines, cap),
            ),
        ),
    }
}

/// `outcome` is what becomes of the input, with the draws from `before` to `after`.
pub open spec fn is_processed(
    input: Seq<u8>,
    protocol: Protocol,
    config: Config,
    before: IdLog,
    after: IdLog,
    outcome: Outcome,
) -> bool {
    match rewrite_mode(input, protocol, config) {
        None => outcome == unchanged(input) && after == before,
        Some(mode) => exists|rendered: Seq<Seq<u8>>|
            {
                &&& #[trigger] is_rendering(
                    table::lines(input),
                    images_by_line(table::lines(input), config.max_row_bytes as int),
                    Style { mode, protocol, config },
                    before,
                    after,
                    rendered,
                )
                &&& outcome == rewritten(
                    table::lines(input),
                    config.max_row_bytes as int,
                    mode,
                    rendered,
                )
            },
    }
}

/// Hands the input on as it is.
pub fn passthrough(input: &[u8]) -> (r: Processed)
    ensures
        r@ == unchanged(input@),
{
    Processed {
        bytes: vstd::slice::slice_to_vec(input),
        rewritten: false,
        passthrough: true,
        interactive: None,
    }
}

/// All lines lie between two of them, or before, or after.
proof fn lemma_flatten_parts(all: Seq<Seq<u8>>, from: int, to: int)
    requires
        0 <= from <= to <= all.len(),
    ensures
        all.take(from).flatten() + all.subrange(from, to).flatten() + all.skip(to).flatten()
            == all.flatten(),
{
    vstd::seq_lib::lemma_flatten_concat(all.take(from), all.subrange(from, to));
    vstd::seq_lib::lemma_flatten_concat(all.take(to), all.skip(to));
    assert(all.take(from) + all.subrange(from, to) =~= all.take(to));
    assert(all.take(to) + all.skip(to) =~= all);
}

/// The records hold all their lines.
proof fn lemma_record_rows_flatten(
    lines: Seq<Seq<u8>>,
    rendered: Seq<Seq<u8>>,
    from: int,
    to: int,
)
    requires
        0 <= from <= to <= rendered.len(),
    ensures
        record_rows(lines, rendered, from, to).flatten() == rendered.subrange(from, to).flatten(),
    decreases to - from,
{
    if to > from {
        let start = record_start(lines, to - 1, from);
        lemma_record_start(lines, to - 1, from);
        lemma_record_rows_flatten(lines, rendered, from, start);
        record_rows(lines, rendered, from, start).lemma_flatten_push(
            rendered.subrange(start, to).flatten(),
        );
        vstd::seq_lib::lemma_flatten_concat(
            rendered.subrange(from, start),
            rendered.subrange(start, to),
        );
        assert(rendered.subrange(from, start) + rendered.subrange(start, to)
            =~= rendered.subrange(from, to));
    } else {
        assert(rendered.subrange(from, to) =~= Seq::empty());
    }
}

/// Where an image line exists, the first and the last one are lines.
proof fn lemma_image_lines_exist(lines: Seq<Seq<u8>>, cap: int, i: int)
    requires
        0 <= i < lines.len(),
        render::has_image(lines[i], cap),
    ensures
        0 <= first_image_line(lines, cap) <= i <= last_image_line(lines, cap) < lines.len(),
{
    lemma_image_line_from_bound(lines, cap, 0, i);
    lemma_image_line_before_bound(lines, cap, lines.len() as int, i);
}

proof fn lemma_image_line_from_bound(lines: Seq<Seq<u8>>, cap: int, from: int, i: int)
    requires
        0 <= from <= i < lines.len(),
        render::has_image(lines[i], cap),
    ensures
        from <= image_line_from(lines, cap, from) <= i,
    decreases i - from,
{
    if from < i && !render::has_image(lines[from], cap) {
        lemma_image_line_from_bound(lines, cap, from + 1, i);
    }
}

proof fn lemma_image_line_before_bound(lines: Seq<Seq<u8>>, cap: int, to: int, i: int)
    requires
        0 <= i < to <= lines.len(),
        render::has_image(lines[i], cap),
    ensures
        i <= image_line_before(lines, cap, to) < to,
    decreases to - i,
{
    if i < to - 1 && !render::has_image(lines[to - 1], cap) {
        lemma_image_line_before_bound(lines, cap, to - 1, i);
    }
}

/// The rows of a rewritten table, with what stands before and after them, are all of its
/// lines in order: the rows shown one by one are the table that is shown at once.
pub proof fn law_rows_hold_all_lines(
    lines: Seq<Seq<u8>>,
    rendered: Seq<Seq<u8>>,
    mode: Mode,
    first: int,
    last: int,
)
    requires
        rendered.len() == lines.len(),
        0 <= first <= last < lines.len(),
    ensures
        row_table(lines, rendered, mode, first, last).bytes() == rendered.flatten(),
{
    match mode {
        Mode::Aligned | Mode::Unaligned => {
            lemma_flatten_parts(rendered, first, last + 1);
        },
        Mode::Expanded => {
            let start = first_record(lines, first);
            lemma_record_start(lines, first, 0);
            lemma_record_start(lines, last, start);
            lemma_next_header(lines, record_start(lines, last, start) + 1);
            let end = last_record_end(lines, first, last);
            lemma_flatten_parts(rendered, start, end);
            lemma_record_rows_flatten(lines, rendered, start, end);
        },
    }
}

/// What a scan finds can be used to rewrite the lines.
proof fn lemma_candidates_are_usable(
    candidates: Seq<(usize, Vec<Token>)>,
    lines: Seq<Seq<u8>>,
    cap: int,
    mode: Mode,
    protocol: Protocol,
)
    requires
        are_candidates(candidates, lines, cap),
        candidates.len() > 0,
        cap <= usize::MAX,
    ensures
        is_usable(candidates, lines, mode, protocol),
        tokens_between(
            candidates,
            lines.len(),
            shown_start(lines, mode, candidates[0].0 as int),
            shown_end(lines, mode, candidates[0].0 as int, candidates.last().0 as int),
        ) == images_by_line(lines, cap),
{
    let first = candidates[0].0 as int;
    let last = candidates.last().0 as int;
    lemma_candidate_range(candidates, lines, cap);
    assert forall|i: int| 0 <= i < lines.len() implies {
        let tokens = #[trigger] line_tokens(candidates, i);
        &&& tokens == render::images_of(lines[i], cap)
        &&& render::are_orderly(tokens, lines[i].len() as int)
        &&& render::are_sendable(tokens, protocol)
    } by {
        lemma_tokens_are_images(candidates, lines, cap, i);
        if render::has_image(lines[i], cap) {
            render::lemma_images_are_orderly(lines[i], protocol);
        }
    }
    let from = shown_start(lines, mode, first);
    let to = shown_end(lines, mode, first, last);
    lemma_shown_lines(lines, mode, first, last);
    assert forall|i: int| 0 <= i < lines.len() implies #[trigger] tokens_between(
        candidates,
        lines.len(),
        from,
        to,
    )[i] == images_by_line(lines, cap)[i] by {
        if !(from <= i < to) {
            assert(!render::has_image(lines[i], cap));
            assert(render::images_of(lines[i], cap) =~= Seq::empty());
        }
    }
    assert(tokens_between(candidates, lines.len(), from, to) =~= images_by_line(lines, cap));
}

/// The lines from `first` to `last` are shown.
proof fn lemma_shown_lines(lines: Seq<Seq<u8>>, mode: Mode, first: int, last: int)
    requires
        0 <= first <= last < lines.len(),
    ensures
        0 <= shown_start(lines, mode, first) <= first,
        last < shown_end(lines, mode, first, last) <= lines.len(),
{
    let start = first_record(lines, first);
    lemma_record_start(lines, first, 0);
    lemma_record_start(lines, last, start);
    let from = record_start(lines, last, start) + 1;
    lemma_next_header(lines, from);
    if next_header(lines, from) <= last {
        assert(table::is_header(lines[next_header(lines, from)]));
    }
}

/// The tokens of a line are those of its images.
proof fn lemma_tokens_are_images(
    candidates: Seq<(usize, Vec<Token>)>,
    lines: Seq<Seq<u8>>,
    cap: int,
    i: int,
)
    requires
        are_candidates(candidates, lines, cap),
        0 <= i < lines.len(),
    ensures
        line_tokens(candidates, i) == render::images_of(lines[i], cap),
{
    if render::has_image(lines[i], cap) {
        let c = choose|c: int| 0 <= c < candidates.len() && (#[trigger] candidates[c]).0 == i;
        assert forall|d: int| 0 <= d < c implies (#[trigger] candidates[d]).0 != i by {
            assert(candidates[d].0 < candidates[c].0);
        }
        lemma_line_tokens(candidates, i, c);
    } else {
        assert forall|d: int| 0 <= d < candidates.len() implies (#[trigger] candidates[d]).0
            != i by {}
        lemma_line_tokens(candidates, i, candidates.len() as int);
        assert(render::images_of(lines[i], cap) =~= Seq::empty());
    }
}

/// One more line is scanned.
proof fn lemma_candidates_next(
    before: Seq<(usize, Vec<Token>)>,
    after: Seq<(usize, Vec<Token>)>,
    lines: Seq<Seq<u8>>,
    cap: int,
    n: int,
)
    requires
        0 <= n < lines.len(),
        are_candidates(before, lines.take(n), cap),
        if render::has_image(lines[n], cap) {
            &&& after.len() == before.len() + 1
            &&& after.drop_last() == before
            &&& after.last().0 == n
            &&& scan::spans(after.last().1@) == render::images_of(lines[n], cap)
        } else {
            after == before
        },
    ensures
        are_candidates(after, lines.take(n + 1), cap),
{
    let less = lines.take(n);
    let more = lines.take(n + 1);
    assert(forall|c: int| 0 <= c < before.len() ==> #[trigger] after[c] == before[c]);
    assert forall|i: int|
        0 <= i < more.len() && render::has_image(#[trigger] more[i], cap) implies exists|c: int|
        0 <= c < after.len() && (#[trigger] after[c]).0 == i by {
        if i < n {
            assert(more[i] == less[i]);
            let c = choose|c: int| 0 <= c < before.len() && (#[trigger] before[c]).0 == i;
            assert(after[c].0 == i);
        } else {
            assert(after[after.len() - 1].0 == i);
        }
    }
    assert forall|c: int| 0 <= c < after.len() implies {
        let (i, tokens) = #[trigger] after[c];
        &&& i < more.len()
        &&& render::has_image(more[i as int], cap)
        &&& scan::spans(tokens@) == render::images_of(more[i as int], cap)
    } by {
        if c < before.len() {
            assert(after[c] == before[c]);
            assert(more[before[c].0 as int] == less[before[c].0 as int]);
        }
    }
}

/// The candidates tell whether a bar stands in a line with an image.
proof fn lemma_barred(candidates: Seq<(usize, Vec<Token>)>, lines: Seq<Seq<u8>>, cap: int)
    requires
        are_candidates(candidates, lines, cap),
    ensures
        some_barred(lines, candidates) == exists|i: int|
            0 <= i < lines.len() && render::has_image(#[trigger] lines[i], cap) && table::has_bar(
                lines[i],
            ),
{
    if some_barred(lines, candidates) {
        let c = choose|c: int|
            0 <= c < candidates.len() && table::has_bar(lines[(#[trigger] candidates[c]).0 as int]);
        assert(render::has_image(lines[candidates[c].0 as int], cap));
    }
}

/// Rewrites a table of one column, or hands the input on as it is.
pub fn process(input: &[u8], protocol: Protocol, config: &Config, ids: &mut ImageIds) -> (r: Result<
    Processed,
    DecodeError,
>)
    ensures
        r matches Ok(processed) && is_processed(
            input@,
            protocol,
            *config,
            old(ids)@,
            final(ids)@,
            processed@,
        ),
{
    if config.disable || protocol == Protocol::Plain {
        return Ok(passthrough(input));
    }
    let found: Vec<Line<'_>> = table::split_inclusive_lines(input);
    let ghost all = table::lines(input@);
    let ghost cap = config.max_row_bytes as int;
    let mut candidate_lines: Vec<(usize, Vec<Token>)> = Vec::new();
    let mut line_index: usize = 0;
    assert(all.take(0) =~= Seq::empty());
    while line_index < found.len()
        invariant
            !config.disable,
            protocol != Protocol::Plain,
            all == table::lines(input@),
            all == table::line_bytes(found@),
            cap == config.max_row_bytes,
            line_index <= found@.len(),
            are_candidates(candidate_lines@, all.take(line_index as int), cap),
            forall|i: int| 0 <= i < line_index ==> !is_unscanned(#[trigger] all[i], cap),
            *ids == *old(ids),
        decreases found@.len() - line_index,
    {
        let bytes: &[u8] = found[line_index].bytes;
        assert(bytes@ == all[line_index as int]);
        let ghost before = candidate_lines@;
        if bytes.len() > config.max_row_bytes {
            if contains_bytes(bytes, &BYTEA_MARK) {
                return Ok(passthrough(input));
            }
            assert(!render::has_image(bytes@, cap));
        } else {
            proof {
                scan::law_tokens_fit_their_line(bytes@, cap);
            }
            match scan::image_tokens(bytes, config.max_row_bytes) {
                Ok(tokens) => {
                    assert(scan::spans(tokens@).len() == tokens@.len());
                    if tokens.len() > 0 {
                        candidate_lines.push((line_index, tokens));
                        assert(candidate_lines@.drop_last() =~= before);
                    }
                },
                Err(scan::ScanError::TokenTooLarge) => return Ok(passthrough(input)),
            }
        }
        proof {
            lemma_candidates_next(before, candidate_lines@, all, cap, line_index as int);
        }
        line_index += 1;
    }
    assert(all.take(line_index as int) =~= all);
    if candidate_lines.len() == 0 {
        return Ok(passthrough(input));
    }
    assert(render::has_image(all[candidate_lines@[0].0 as int], cap));
    proof {
        lemma_barred(candidate_lines@, all, cap);
        lemma_candidate_range(candidate_lines@, all, cap);
    }
    let mode: Mode = match classify(found.as_slice(), candidate_lines.as_slice()) {
        Some(mode) => mode,
        None => return Ok(passthrough(input)),
    };
    proof {
        lemma_candidates_are_usable(candidate_lines@, all, cap, mode, protocol);
    }
    let interactive = match build_interactive_output(
        found.as_slice(),
        candidate_lines.as_slice(),
        mode,
        protocol,
        config,
        ids,
    ) {
        Ok(interactive) => interactive,
        Err(error) => return Err(error),
    };
    let out: Vec<u8> = interactive.bytes();
    proof {
        let style = Style { mode, protocol, config: *config };
        let rendered = choose|rendered: Seq<Seq<u8>>|
            {
                &&& #[trigger] is_rendering(
                    all,
                    images_by_line(all, cap),
                    style,
                    old(ids)@,
                    ids@,
                    rendered,
                )
                &&& interactive@ == row_table(
                    all,
                    rendered,
                    mode,
                    first_image_line(all, cap),
                    last_image_line(all, cap),
                )
            };
        law_rows_hold_all_lines(
            all,
            rendered,
            mode,
            first_image_line(all, cap),
            last_image_line(all, cap),
        );
    }
    Ok(
        Processed {
            bytes: out,
            rewritten: true,
            passthrough: false,
            interactive: Some(interactive),
        },
    )
}

/// The input is either handed on as it is or rewritten into rows, never both. The rows with
/// what stands before and after them are the output.
pub proof fn law_output_is_whole(
    input: Seq<u8>,
    protocol: Protocol,
    config: Config,
    before: IdLog,
    after: IdLog,
    outcome: Outcome,
)
    requires
        is_processed(input, protocol, config, before, after, outcome),
    ensures
        outcome.passthrough == !outcome.rewritten,
        outcome.rewritten == (outcome.interactive is Some),
        outcome.passthrough ==> outcome.bytes == input,
        outcome.interactive matches Some(table) ==> {
            &&& table.bytes() == outcome.bytes
            &&& table.rows.len() > 0
        },
{
    if let Some(mode) = rewrite_mode(input, protocol, config) {
        let lines = table::lines(input);
        let cap = config.max_row_bytes as int;
        let rendered = choose|rendered: Seq<Seq<u8>>|
            {
                &&& #[trigger] is_rendering(
                    lines,
                    images_by_line(lines, cap),
                    Style { mode, protocol, config },
                    before,
                    after,
                    rendered,
                )
                &&& outcome == rewritten(lines, cap, mode, rendered)
            };
        let i = choose|i: int| 0 <= i < lines.len() && render::has_image(#[trigger] lines[i], cap);
        lemma_image_lines_exist(lines, cap, i);
        let first = first_image_line(lines, cap);
        let last = last_image_line(lines, cap);
        law_rows_hold_all_lines(lines, rendered, mode, first, last);
        law_tables_have_rows(lines, rendered, mode, first, last);
    }
}

/// A rewritten table has a row to show.
pub proof fn law_tables_have_rows(
    lines: Seq<Seq<u8>>,
    rendered: Seq<Seq<u8>>,
    mode: Mode,
    first: int,
    last: int,
)
    requires
        rendered.len() == lines.len(),
        0 <= first <= last < lines.len(),
    ensures
        row_table(lines, rendered, mode, first, last).rows.len() > 0,
{
    let start = first_record(lines, first);
    lemma_record_start(lines, first, 0);
    lemma_record_start(lines, last, start);
    lemma_next_header(lines, record_start(lines, last, start) + 1);
}

/// Lines without an image come out as they went in.
pub proof fn law_other_lines_are_kept(
    lines: Seq<Seq<u8>>,
    images: Seq<Seq<TokenSpan>>,
    style: Style,
    before: IdLog,
    after: IdLog,
    rendered: Seq<Seq<u8>>,
    i: int,
)
    requires
        is_rendering(lines, images, style, before, after, rendered),
        0 <= i < lines.len(),
        images[i].len() == 0,
    ensures
        rendered[i] == lines[i],
{
    assert(render::is_rendered(
        lines[i],
        images[i],
        style,
        after,
        before.clock.len() as int + render::draws_before(images, style, i as nat),
        rendered[i],
    ));
}

/// A line is imageless where the input is.
proof fn lemma_imageless_line(input: Seq<u8>, i: int)
    requires
        scan::is_imageless(input),
        0 <= i < table::lines(input).len(),
    ensures
        scan::is_imageless(table::lines(input)[i]),
{
    let line = table::lines(input)[i];
    let offset = table::lemma_line_is_part(input, i);
    table::law_newlines_end_lines(input, i);
    assert forall|at: int| !scan::image_at(line, at) by {
        if scan::image_at(line, at) {
            if i < table::lines(input).len() - 1 {
                assert(input[offset + line.len() - 1] == line.last());
            }
            scan::lemma_image_in_part(input, offset, offset + line.len(), at);
        }
    }
}

/// A text without images is left as it is.
#[verifier::spinoff_prover]
pub proof fn law_imageless_texts_are_kept(input: Seq<u8>, protocol: Protocol, config: Config)
    requires
        scan::is_imageless(input),
    ensures
        rewrite_mode(input, protocol, config) is None,
{
    let lines = table::lines(input);
    let cap = config.max_row_bytes as int;
    assert forall|i: int| 0 <= i < lines.len() implies !render::has_image(
        #[trigger] lines[i],
        cap,
    ) by {
        lemma_imageless_line(input, i);
        if render::has_image(lines[i], cap) {
            scan::law_images_are_tokens(lines[i], 0, 0);
        }
    }
}

/// Nothing opens in a text without `\x`.
proof fn lemma_unmarked(text: Seq<u8>)
    requires
        !bytes::occurs(text, BYTEA_MARK@),
    ensures
        scan::is_imageless(text),
{
    assert forall|at: int| !scan::image_at(text, at) by {
        if scan::image_at(text, at) {
            assert(text.subrange(at, at + 2) =~= BYTEA_MARK@);
            assert(bytes::occurs_at(text, BYTEA_MARK@, at));
        }
    }
}

/// A text without `\x` is left as it is.
pub proof fn law_text_is_kept(input: Seq<u8>, protocol: Protocol, config: Config)
    requires
        !bytes::occurs(input, BYTEA_MARK@),
    ensures
        rewrite_mode(input, protocol, config) is None,
{
    lemma_unmarked(input);
    law_imageless_texts_are_kept(input, protocol, config);
}

/// What a line of a rewritten table becomes for iTerm2 holds no image, and ends as it did.
proof fn lemma_iterm2_line(
    input: Seq<u8>,
    style: Style,
    log: IdLog,
    at: int,
    i: int,
    text: Seq<u8>,
)
    requires
        style.protocol == Protocol::ITerm2,
        0 <= i < table::lines(input).len(),
        !is_unscanned(table::lines(input)[i], style.config.max_row_bytes as int),
        render::is_rendered(
            table::lines(input)[i],
            render::images_of(table::lines(input)[i], style.config.max_row_bytes as int),
            style,
            log,
            at,
            text,
        ),
    ensures
        scan::is_imageless(text),
        text.len() > 0,
        i < table::lines(input).len() - 1 ==> text.last() == bytes::NEWLINE,
{
    let line = table::lines(input)[i];
    table::law_newlines_end_lines(input, i);
    if line.len() <= style.config.max_row_bytes {
        render::law_iterm2_lines_hold_no_image(line, style, log, at, text);
    } else {
        lemma_unmarked(line);
    }
}

/// Lines without images hold none together.
proof fn lemma_imageless_lines(rendered: Seq<Seq<u8>>, n: int)
    requires
        0 <= n <= rendered.len(),
        forall|i: int|
            0 <= i < rendered.len() ==> {
                &&& scan::is_imageless(#[trigger] rendered[i])
                &&& rendered[i].len() > 0
                &&& i < rendered.len() - 1 ==> rendered[i].last() == bytes::NEWLINE
            },
    ensures
        scan::is_imageless(rendered.take(n).flatten()),
        0 < n < rendered.len() ==> rendered.take(n).flatten().len() > 0 && rendered.take(
            n,
        ).flatten().last() == bytes::NEWLINE,
    decreases n,
{
    if n > 0 {
        lemma_imageless_lines(rendered, n - 1);
        lemma_flatten_take_next(rendered, n - 1);
        let before = rendered.take(n - 1).flatten();
        assert(scan::is_imageless(rendered[n - 1]));
        if n == 1 {
            assert(before =~= Seq::empty());
        }
        scan::lemma_imageless_joined(before, rendered[n - 1]);
    } else {
        assert(rendered.take(0).flatten() =~= Seq::empty());
        scan::lemma_no_backslash(Seq::empty());
    }
}

/// What came out for iTerm2 is left as it is when it goes in again: no image is left in it.
pub proof fn law_second_pass_changes_nothing(
    input: Seq<u8>,
    config: Config,
    before: IdLog,
    after: IdLog,
    outcome: Outcome,
)
    requires
        is_processed(input, Protocol::ITerm2, config, before, after, outcome),
    ensures
        rewrite_mode(outcome.bytes, Protocol::ITerm2, config) is None,
        forall|from: IdLog, to: IdLog, second: Outcome|
            is_processed(outcome.bytes, Protocol::ITerm2, config, from, to, second) ==> second
                == unchanged(outcome.bytes),
{
    if let Some(mode) = rewrite_mode(input, Protocol::ITerm2, config) {
        let lines = table::lines(input);
        let cap = config.max_row_bytes as int;
        let images = images_by_line(lines, cap);
        let style = Style { mode, protocol: Protocol::ITerm2, config };
        let rendered = choose|rendered: Seq<Seq<u8>>|
            {
                &&& #[trigger] is_rendering(lines, images, style, before, after, rendered)
                &&& outcome == rewritten(lines, cap, mode, rendered)
            };
        assert forall|i: int| 0 <= i < rendered.len() implies {
            &&& scan::is_imageless(#[trigger] rendered[i])
            &&& rendered[i].len() > 0
            &&& i < rendered.len() - 1 ==> rendered[i].last() == bytes::NEWLINE
        } by {
            assert(!is_unscanned(lines[i], cap));
            lemma_iterm2_line(
                input,
                style,
                after,
                before.clock.len() as int + render::draws_before(images, style, i as nat),
                i,
                rendered[i],
            );
        }
        lemma_imageless_lines(rendered, rendered.len() as int);
        assert(rendered.take(rendered.len() as int) =~= rendered);
        law_imageless_texts_are_kept(outcome.bytes, Protocol::ITerm2, config);
    }
}

/// A table with a bar in a line with an image has several columns, and is left as it is,
/// unless it is an expanded one.
pub proof fn law_barred_tables_are_kept(
    input: Seq<u8>,
    protocol: Protocol,
    config: Config,
    i: int,
)
    requires
        0 <= i < table::lines(input).len(),
        render::has_image(table::lines(input)[i], config.max_row_bytes as int),
        table::has_bar(table::lines(input)[i]),
        !table::has_header(table::lines(input), 0, table::lines(input).len() as int),
    ensures
        rewrite_mode(input, protocol, config) is None,
{
}

/// An expanded table with two fields in a record has several columns, and is left as it is.
pub proof fn law_wide_records_are_kept(
    input: Seq<u8>,
    protocol: Protocol,
    config: Config,
    i: int,
    j: int,
)
    requires
        table::share_record(table::lines(input), i, j),
    ensures
        rewrite_mode(input, protocol, config) is None,
{
    let lines = table::lines(input);
    let h = choose|h: int| 0 <= h < i && table::is_header(#[trigger] lines[h]);
    assert(table::is_header(lines[h]));
}

/// A line that is too large to be scanned and may hold an image keeps the whole input as it is.
pub proof fn law_large_lines_are_kept(
    input: Seq<u8>,
    protocol: Protocol,
    config: Config,
    i: int,
)
    requires
        0 <= i < table::lines(input).len(),
        is_unscanned(table::lines(input)[i], config.max_row_bytes as int),
    ensures
        rewrite_mode(input, protocol, config) is None,
{
}

/// How many lines after `from` and before `to` start a record.
pub open spec fn header_count(lines: Seq<Seq<u8>>, from: int, to: int) -> nat
    decreases to - from,
{
    if to <= from + 1 {
        0
    } else {
        header_count(lines, from, to - 1) + if table::is_header(lines[to - 1]) {
            1nat
        } else {
            0
        }
    }
}

/// Each record is one row: a row starts with the first line and with every header after it.
pub proof fn law_rows_are_records(
    lines: Seq<Seq<u8>>,
    rendered: Seq<Seq<u8>>,
    from: int,
    to: int,
)
    requires
        0 <= from < to <= lines.len(),
    ensures
        record_rows(lines, rendered, from, to).len() == 1 + header_count(lines, from, to),
    decreases to - from,
{
    let start = record_start(lines, to - 1, from);
    lemma_record_start(lines, to - 1, from);
    lemma_header_count(lines, from, start + 1, to);
    if start > from {
        law_rows_are_records(lines, rendered, from, start);
        assert(header_count(lines, from, start + 1) == header_count(lines, from, start) + 1);
    } else {
        assert(record_rows(lines, rendered, from, start).len() == 0);
    }
}

/// Lines that start no record do not count.
proof fn lemma_header_count(lines: Seq<Seq<u8>>, from: int, mid: int, to: int)
    requires
        from < mid <= to <= lines.len(),
        !table::has_header(lines, mid, to),
    ensures
        header_count(lines, from, to) == header_count(lines, from, mid),
    decreases to - mid,
{
    if mid < to {
        assert(!table::is_header(lines[to - 1]));
        lemma_header_count(lines, from, mid, to - 1);
    }
}

/// The output depends on nothing but the input, the settings and the image numbers, unless
/// it holds sixel graphics of an image that is scaled.
pub proof fn law_output_is_determined(
    input: Seq<u8>,
    protocol: Protocol,
    config: Config,
    before: IdLog,
    after: IdLog,
    a: Outcome,
    b: Outcome,
)
    requires
        is_processed(input, protocol, config, before, after, a),
        is_processed(input, protocol, config, before, after, b),
        rewrite_mode(input, protocol, config) matches Some(mode) ==> forall|i: int|
            0 <= i < table::lines(input).len() ==> render::none_scaled(
                render::images_of(#[trigger] table::lines(input)[i], config.max_row_bytes as int),
                Style { mode, protocol, config },
            ),
    ensures
        a == b,
{
    if let Some(mode) = rewrite_mode(input, protocol, config) {
        let lines = table::lines(input);
        let cap = config.max_row_bytes as int;
        let images = images_by_line(lines, cap);
        let style = Style { mode, protocol, config };
        let of_a = choose|rendered: Seq<Seq<u8>>|
            {
                &&& #[trigger] is_rendering(lines, images, style, before, after, rendered)
                &&& a == rewritten(lines, cap, mode, rendered)
            };
        let of_b = choose|rendered: Seq<Seq<u8>>|
            {
                &&& #[trigger] is_rendering(lines, images, style, before, after, rendered)
                &&& b == rewritten(lines, cap, mode, rendered)
            };
        assert forall|i: int| 0 <= i < lines.len() implies of_a[i] == of_b[i] by {
            render::law_lines_are_determined(
                lines[i],
                images[i],
                style,
                after,
                before.clock.len() as int + render::draws_before(images, style, i as nat),
                of_a[i],
                of_b[i],
            );
        }
        assert(of_a =~= of_b);
    }
}

/// The line is within the limit on lines and holds an image.
pub open spec fn is_image_line(line: Seq<u8>, config: Config) -> bool {
    line.len() <= config.max_row_bytes && scan::holds_image(line)
}

proof fn lemma_image_line(line: Seq<u8>, config: Config)
    ensures
        render::has_image(line, config.max_row_bytes as int) <==> is_image_line(line, config),
{
    let images = scan::images_in(line);
    if images.len() > 0 {
        assert(images.contains(images[0]));
    }
}

/// Two lines are fields of one record: the first has a header before it, and none stands between
/// them.
pub open spec fn are_columns(lines: Seq<Seq<u8>>, i: int, j: int) -> bool {
    &&& 0 <= i < j < lines.len()
    &&& table::is_field(lines[i])
    &&& table::is_field(lines[j])
    &&& exists|h: int| 0 <= h < i && table::is_header(#[trigger] lines[h])
    &&& forall|h: int| i <= h < j ==> !table::is_header(#[trigger] lines[h])
}

/// A table is rewritten exactly where the terminal takes images and that is not disabled, no
/// line that is too long to be looked at may hold a value, some line holds an image, and the
/// table has one column: in an expanded table no record has two fields, and there is one, and
/// in any other table no bar stands in a line with an image. What is not rewritten is handed on.
#[verifier::spinoff_prover]
pub proof fn law_tables_of_one_column_are_rewritten(
    input: Seq<u8>,
    protocol: Protocol,
    config: Config,
    before: IdLog,
    after: IdLog,
    outcome: Outcome,
)
    requires
        is_processed(input, protocol, config, before, after, outcome),
    ensures
        ({
            let lines = table::lines(input);
            outcome.rewritten <==> {
                &&& !config.disable
                &&& protocol != Protocol::Plain
                &&& forall|i: int|
                    0 <= i < lines.len() && (#[trigger] lines[i]).len() > config.max_row_bytes
                        ==> !bytes::occurs(lines[i], seq![0x5cu8, 0x78])
                &&& exists|i: int| 0 <= i < lines.len() && is_image_line(#[trigger] lines[i], config)
                &&& if exists|i: int| 0 <= i < lines.len() && table::is_header(#[trigger] lines[i]) {
                    &&& exists|i: int| 0 <= i < lines.len() && table::is_field(#[trigger] lines[i])
                    &&& forall|i: int, j: int| !(#[trigger] are_columns(lines, i, j))
                } else {
                    forall|i: int|
                        0 <= i < lines.len() && is_image_line(#[trigger] lines[i], config)
                            ==> !lines[i].contains(0x7c)
                }
            }
        }),
        outcome.rewritten == (outcome.interactive is Some),
        !outcome.rewritten ==> outcome.bytes == input,
{
    let lines = table::lines(input);
    let cap = config.max_row_bytes as int;
    law_output_is_whole(input, protocol, config, before, after, outcome);
    assert(BYTEA_MARK@ =~= seq![0x5cu8, 0x78]);
    assert forall|i: int| 0 <= i < lines.len() implies {
        &&& render::has_image(#[trigger] lines[i], cap) <==> is_image_line(lines[i], config)
        &&& table::has_bar(lines[i]) <==> lines[i].contains(0x7c)
        &&& is_unscanned(lines[i], cap) <==> lines[i].len() > cap && bytes::occurs(
            lines[i],
            seq![0x5cu8, 0x78],
        )
    } by {
        lemma_image_line(lines[i], config);
        table::law_bars_stand_in_lines(lines[i]);
    }
    assert forall|i: int, j: int| #[trigger] are_columns(lines, i, j) <==> table::share_record(
        lines,
        i,
        j,
    ) by {}
    if table::is_single_column(lines) {
        assert forall|i: int, j: int| !(#[trigger] are_columns(lines, i, j)) by {
            assert(!table::share_record(lines, i, j));
        }
    }
    if forall|i: int, j: int| !(#[trigger] are_columns(lines, i, j)) {
        assert forall|i: int, j: int| !table::share_record(lines, i, j) by {
            assert(!are_columns(lines, i, j));
        }
    }
}

/// A table that is rewritten is taken for an expanded one exactly where a record starts in it,
/// and else for an aligned one exactly where a rule stands in it.
pub proof fn law_layouts_are_told_apart(input: Seq<u8>, protocol: Protocol, config: Config)
    ensures
        rewrite_mode(input, protocol, config) matches Some(mode) ==> {
            let lines = table::lines(input);
            &&& mode == Mode::Expanded <==> exists|i: int|
                0 <= i < lines.len() && table::is_header(#[trigger] lines[i])
            &&& mode == Mode::Aligned <==> (forall|i: int|
                0 <= i < lines.len() ==> !table::is_header(#[trigger] lines[i])) && (exists|i: int|
                0 <= i < lines.len() && table::is_rule(#[trigger] lines[i]))
        },
{
}

/// In a rewritten table, a line within the limit becomes the line with all its images rewritten,
/// and a longer line stays as it is.
pub proof fn law_lines_are_rewritten(
    lines: Seq<Seq<u8>>,
    style: Style,
    before: IdLog,
    after: IdLog,
    rendered: Seq<Seq<u8>>,
    i: int,
)
    requires
        is_rendering(
            lines,
            images_by_line(lines, style.config.max_row_bytes as int),
            style,
            before,
            after,
            rendered,
        ),
        0 <= i < lines.len(),
    ensures
        lines[i].len() <= style.config.max_row_bytes ==> exists|at: int|
            before.clock.len() <= at && #[trigger] render::is_rendered(
                lines[i],
                scan::images_in(lines[i]),
                style,
                after,
                at,
                rendered[i],
            ),
        lines[i].len() > style.config.max_row_bytes ==> rendered[i] == lines[i],
{
    let images = images_by_line(lines, style.config.max_row_bytes as int);
    let at = before.clock.len() as int + render::draws_before(images, style, i as nat);
    assert(render::is_rendered(lines[i], images[i], style, after, at, rendered[i]));
}

/// What is rewritten of a table that is not expanded is shown in rows: each line from the first
/// with an image to the last with one is one row, as it was rewritten, and the lines before and
/// after them stand unchanged before and after the rows.
pub proof fn law_rows_are_lines(
    input: Seq<u8>,
    protocol: Protocol,
    config: Config,
    before: IdLog,
    after: IdLog,
    outcome: Outcome,
) -> (shown: (Seq<Seq<u8>>, int, int))
    requires
        is_processed(input, protocol, config, before, after, outcome),
        outcome.rewritten,
        forall|i: int|
            0 <= i < table::lines(input).len() ==> !table::is_header(
                #[trigger] table::lines(input)[i],
            ),
    ensures
        ({
            let lines = table::lines(input);
            let (rendered, first, last) = shown;
            &&& rewrite_mode(input, protocol, config) matches Some(mode)
            &&& is_rendering(
                lines,
                images_by_line(lines, config.max_row_bytes as int),
                Style { mode, protocol, config },
                before,
                after,
                rendered,
            )
            &&& outcome.bytes == rendered.flatten()
            &&& 0 <= first <= last < lines.len()
            &&& is_image_line(lines[first], config)
            &&& is_image_line(lines[last], config)
            &&& forall|i: int|
                0 <= i < lines.len() && is_image_line(#[trigger] lines[i], config) ==> first <= i
                    <= last
            &&& outcome.interactive matches Some(table)
            &&& table.prefix == lines.take(first).flatten()
            &&& table.rows.len() == last - first + 1
            &&& forall|k: int|
                0 <= k < table.rows.len() ==> #[trigger] table.rows[k] == rendered[first + k]
            &&& table.suffix == lines.skip(last + 1).flatten()
        }),
{
    let lines = table::lines(input);
    let cap = config.max_row_bytes as int;
    let mode = rewrite_mode(input, protocol, config)->Some_0;
    let style = Style { mode, protocol, config };
    let images = images_by_line(lines, cap);
    let rendered = choose|rendered: Seq<Seq<u8>>|
        {
            &&& #[trigger] is_rendering(lines, images, style, before, after, rendered)
            &&& outcome == rewritten(lines, cap, mode, rendered)
        };
    let (first, last) = lemma_image_lines_are_bounds(lines, config);
    lemma_plain_ends(lines, config, style, before, after, rendered, first, last);
    assert(mode != Mode::Expanded);
    (rendered, first, last)
}

/// The first and the last line with an image are the first and the last one.
proof fn lemma_image_lines_are_bounds(lines: Seq<Seq<u8>>, config: Config) -> (bounds: (int, int))
    requires
        exists|i: int|
            0 <= i < lines.len() && render::has_image(
                #[trigger] lines[i],
                config.max_row_bytes as int,
            ),
    ensures
        bounds.0 == first_image_line(lines, config.max_row_bytes as int),
        bounds.1 == last_image_line(lines, config.max_row_bytes as int),
        0 <= bounds.0 <= bounds.1 < lines.len(),
        is_image_line(lines[bounds.0], config),
        is_image_line(lines[bounds.1], config),
        forall|i: int|
            0 <= i < lines.len() && is_image_line(#[trigger] lines[i], config) ==> bounds.0 <= i
                <= bounds.1,
        forall|i: int|
            0 <= i < lines.len() && render::has_image(
                #[trigger] lines[i],
                config.max_row_bytes as int,
            ) ==> bounds.0 <= i <= bounds.1,
{
    let cap = config.max_row_bytes as int;
    let i = choose|i: int| 0 <= i < lines.len() && render::has_image(#[trigger] lines[i], cap);
    lemma_image_lines_exist(lines, cap, i);
    lemma_image_line_from_found(lines, cap, 0);
    lemma_image_line_before_found(lines, cap, lines.len() as int);
    let (first, last) = (first_image_line(lines, cap), last_image_line(lines, cap));
    lemma_image_line(lines[first], config);
    lemma_image_line(lines[last], config);
    assert forall|i: int|
        0 <= i < lines.len() && is_image_line(#[trigger] lines[i], config) implies first <= i
        <= last by {
        lemma_image_line(lines[i], config);
        lemma_image_lines_exist(lines, cap, i);
    }
    assert forall|i: int|
        0 <= i < lines.len() && render::has_image(#[trigger] lines[i], cap) implies first <= i
        <= last by {
        lemma_image_lines_exist(lines, cap, i);
    }
    (first, last)
}

proof fn lemma_image_line_from_found(lines: Seq<Seq<u8>>, cap: int, from: int)
    requires
        0 <= from <= lines.len(),
    ensures
        image_line_from(lines, cap, from) < lines.len() ==> render::has_image(
            lines[image_line_from(lines, cap, from)],
            cap,
        ),
    decreases lines.len() - from,
{
    if from < lines.len() && !render::has_image(lines[from], cap) {
        lemma_image_line_from_found(lines, cap, from + 1);
    }
}

proof fn lemma_image_line_before_found(lines: Seq<Seq<u8>>, cap: int, to: int)
    requires
        0 <= to <= lines.len(),
    ensures
        image_line_before(lines, cap, to) >= 0 ==> render::has_image(
            lines[image_line_before(lines, cap, to)],
            cap,
        ),
    decreases to,
{
    if to > 0 && !render::has_image(lines[to - 1], cap) {
        lemma_image_line_before_found(lines, cap, to - 1);
    }
}

/// Lines before the first and after the last line with an image stay as they are.
proof fn lemma_plain_ends(
    lines: Seq<Seq<u8>>,
    config: Config,
    style: Style,
    before: IdLog,
    after: IdLog,
    rendered: Seq<Seq<u8>>,
    first: int,
    last: int,
)
    requires
        is_rendering(
            lines,
            images_by_line(lines, config.max_row_bytes as int),
            style,
            before,
            after,
            rendered,
        ),
        0 <= first <= last < lines.len(),
        forall|i: int|
            0 <= i < lines.len() && render::has_image(
                #[trigger] lines[i],
                config.max_row_bytes as int,
            ) ==> first <= i <= last,
    ensures
        forall|i: int| 0 <= i < first || last < i < lines.len() ==> rendered[i] == lines[i],
        forall|n: int| 0 <= n <= first ==> #[trigger] rendered.take(n) == lines.take(n),
        forall|n: int| last < n <= lines.len() ==> #[trigger] rendered.skip(n) == lines.skip(n),
{
    let images = images_by_line(lines, config.max_row_bytes as int);
    assert forall|i: int| 0 <= i < first || last < i < lines.len() implies rendered[i]
        == lines[i] by {
        assert(!render::has_image(lines[i], config.max_row_bytes as int));
        law_other_lines_are_kept(lines, images, style, before, after, rendered, i);
    }
    assert forall|n: int| 0 <= n <= first implies #[trigger] rendered.take(n) == lines.take(n) by {
        assert(rendered.take(n) =~= lines.take(n));
    }
    assert forall|n: int| last < n <= lines.len() implies #[trigger] rendered.skip(n) == lines.skip(
        n,
    ) by {
        assert(rendered.skip(n) =~= lines.skip(n));
    }
}

/// Rows of records are cut at the headers: each row holds all lines from one cut to the next, and
/// a cut lies at every header and nowhere else.
pub proof fn law_records_are_cut_at_headers(
    lines: Seq<Seq<u8>>,
    rendered: Seq<Seq<u8>>,
    from: int,
    to: int,
) -> (cuts: Seq<int>)
    requires
        0 <= from < to <= lines.len(),
    ensures
        ({
            let rows = record_rows(lines, rendered, from, to);
            &&& rows.len() > 0
            &&& cuts.len() == rows.len() + 1
            &&& cuts[0] == from
            &&& cuts.last() == to
            &&& forall|j: int, k: int|
                0 <= j < k < cuts.len() ==> (#[trigger] cuts[j]) < (#[trigger] cuts[k])
            &&& forall|k: int|
                0 <= k < rows.len() ==> #[trigger] rows[k] == rendered.subrange(
                    cuts[k],
                    cuts[k + 1],
                ).flatten()
            &&& forall|i: int|
                from < i < to ==> (table::is_header(#[trigger] lines[i]) <==> cuts.contains(i))
        }),
    decreases to - from,
{
    let start = record_start(lines, to - 1, from);
    lemma_record_start(lines, to - 1, from);
    let rows = record_rows(lines, rendered, from, to);
    if start == from {
        let cuts = seq![from, to];
        assert(record_rows(lines, rendered, from, from).len() == 0);
        assert(rows.len() == 1);
        assert(cuts[0] == from && cuts[1] == to);
        assert(rows[0] == rendered.subrange(from, to).flatten());
        assert forall|i: int| from < i < to implies (table::is_header(#[trigger] lines[i])
            <==> cuts.contains(i)) by {
            if cuts.contains(i) {
                let k = choose|k: int| 0 <= k < cuts.len() && cuts[k] == i;
                assert(cuts[k] == from || cuts[k] == to);
            }
        }
        cuts
    } else {
        let less = law_records_are_cut_at_headers(lines, rendered, from, start);
        let cuts = less.push(to);
        let start_rows = record_rows(lines, rendered, from, start);
        assert(rows == start_rows.push(rendered.subrange(start, to).flatten()));
        assert forall|k: int| 0 <= k < rows.len() implies #[trigger] rows[k] == rendered.subrange(
            cuts[k],
            cuts[k + 1],
        ).flatten() by {
            if k < rows.len() - 1 {
                assert(rows[k] == start_rows[k]);
            }
        }
        assert forall|i: int| from < i < to implies (table::is_header(#[trigger] lines[i])
            <==> cuts.contains(i)) by {
            if i < start && table::is_header(lines[i]) {
                let k = choose|k: int| 0 <= k < less.len() && less[k] == i;
                assert(cuts[k] == i);
            }
            if i == start {
                assert(cuts[less.len() - 1] == start);
            }
            if cuts.contains(i) {
                let k = choose|k: int| 0 <= k < cuts.len() && cuts[k] == i;
                assert(k < less.len());
                if i < start {
                    assert(less.contains(less[k]));
                }
                assert(less[k] <= less[less.len() - 1]);
            }
        }
        cuts
    }
}

/// The first record starts and the last one ends where records do.
proof fn lemma_record_bounds(lines: Seq<Seq<u8>>, first: int, last: int)
    requires
        0 <= first <= last < lines.len(),
    ensures
        ({
            let from = first_record(lines, first);
            let to = last_record_end(lines, first, last);
            &&& 0 <= from <= first
            &&& last < to <= lines.len()
            &&& from == 0 || table::is_header(lines[from])
            &&& to == lines.len() || table::is_header(lines[to])
            &&& forall|h: int| from < h <= first ==> !table::is_header(#[trigger] lines[h])
            &&& forall|h: int| last < h < to ==> !table::is_header(#[trigger] lines[h])
        }),
{
    let from = first_record(lines, first);
    lemma_shown_lines(lines, Mode::Expanded, first, last);
    lemma_record_start(lines, first, 0);
    lemma_record_start(lines, last, from);
    lemma_next_header(lines, record_start(lines, last, from) + 1);
}

/// A table is shown in whole records: of the lines `lines`, which became `rendered`, each row holds
/// those from one cut to the next. The first row is the record of the first line with an image,
/// and the last row that of the last.
pub open spec fn is_cut_into_records(
    lines: Seq<Seq<u8>>,
    rendered: Seq<Seq<u8>>,
    config: Config,
    table: RowTable,
    cuts: Seq<int>,
) -> bool {
    let (from, to) = (cuts[0], cuts.last());
    &&& cuts.len() == table.rows.len() + 1
    &&& cuts.len() > 1
    &&& 0 <= from < to <= lines.len()
    &&& forall|i: int|
        0 <= i < lines.len() && is_image_line(#[trigger] lines[i], config) ==> from <= i < to
    &&& from == 0 || table::is_header(lines[from])
    &&& to == lines.len() || table::is_header(lines[to])
    &&& exists|i: int|
        {
            &&& from <= i < to
            &&& is_image_line(#[trigger] lines[i], config)
            &&& forall|h: int| from < h <= i ==> !table::is_header(#[trigger] lines[h])
        }
    &&& exists|i: int|
        {
            &&& from <= i < to
            &&& is_image_line(#[trigger] lines[i], config)
            &&& forall|h: int| i < h < to ==> !table::is_header(#[trigger] lines[h])
        }
    &&& table.prefix == lines.take(from).flatten()
    &&& table.suffix == lines.skip(to).flatten()
    &&& forall|j: int, k: int|
        0 <= j < k < cuts.len() ==> (#[trigger] cuts[j]) < (#[trigger] cuts[k])
    &&& forall|k: int|
        0 <= k < table.rows.len() ==> #[trigger] table.rows[k] == rendered.subrange(
            cuts[k],
            cuts[k + 1],
        ).flatten()
    &&& forall|i: int|
        from < i < to ==> (table::is_header(#[trigger] lines[i]) <==> cuts.contains(i))
}

proof fn lemma_cut_into_records(
    lines: Seq<Seq<u8>>,
    rendered: Seq<Seq<u8>>,
    config: Config,
    first: int,
    last: int,
) -> (cuts: Seq<int>)
    requires
        0 <= first <= last < lines.len(),
        is_image_line(lines[first], config),
        is_image_line(lines[last], config),
        forall|i: int|
            0 <= i < lines.len() && is_image_line(#[trigger] lines[i], config) ==> first <= i
                <= last,
        forall|n: int| 0 <= n <= first ==> #[trigger] rendered.take(n) == lines.take(n),
        forall|n: int| last < n <= lines.len() ==> #[trigger] rendered.skip(n) == lines.skip(n),
    ensures
        is_cut_into_records(
            lines,
            rendered,
            config,
            expanded_rows(lines, rendered, first, last),
            cuts,
        ),
{
    let from = first_record(lines, first);
    let to = last_record_end(lines, first, last);
    lemma_record_bounds(lines, first, last);
    assert(rendered.take(from) == lines.take(from));
    assert(rendered.skip(to) == lines.skip(to));
    let cuts = law_records_are_cut_at_headers(lines, rendered, from, to);
    let table = expanded_rows(lines, rendered, first, last);
    assert(from <= first < to && is_image_line(lines[first], config));
    assert(exists|i: int|
        {
            &&& from <= i < to
            &&& is_image_line(#[trigger] lines[i], config)
            &&& forall|h: int| from < h <= i ==> !table::is_header(#[trigger] lines[h])
        });
    assert(from <= last < to && is_image_line(lines[last], config));
    assert(exists|i: int|
        {
            &&& from <= i < to
            &&& is_image_line(#[trigger] lines[i], config)
            &&& forall|h: int| i < h < to ==> !table::is_header(#[trigger] lines[h])
        });
    cuts
}

/// What is rewritten of an expanded table is shown in rows: whole records, from that of the first
/// line with an image to that of the last, each with all its lines as they were rewritten. The
/// lines before and after them stand unchanged before and after the rows.
pub proof fn law_rows_are_whole_records(
    input: Seq<u8>,
    protocol: Protocol,
    config: Config,
    before: IdLog,
    after: IdLog,
    outcome: Outcome,
) -> (shown: (Seq<Seq<u8>>, Seq<int>))
    requires
        is_processed(input, protocol, config, before, after, outcome),
        outcome.rewritten,
        exists|i: int|
            0 <= i < table::lines(input).len() && table::is_header(
                #[trigger] table::lines(input)[i],
            ),
    ensures
        is_rendering(
            table::lines(input),
            images_by_line(table::lines(input), config.max_row_bytes as int),
            Style { mode: Mode::Expanded, protocol, config },
            before,
            after,
            shown.0,
        ),
        outcome.bytes == shown.0.flatten(),
        outcome.interactive matches Some(table) && is_cut_into_records(
            table::lines(input),
            shown.0,
            config,
            table,
            shown.1,
        ),
{
    let lines = table::lines(input);
    let cap = config.max_row_bytes as int;
    let mode = rewrite_mode(input, protocol, config)->Some_0;
    law_layouts_are_told_apart(input, protocol, config);
    let style = Style { mode, protocol, config };
    let images = images_by_line(lines, cap);
    let rendered = choose|rendered: Seq<Seq<u8>>|
        {
            &&& #[trigger] is_rendering(lines, images, style, before, after, rendered)
            &&& outcome == rewritten(lines, cap, mode, rendered)
        };
    let (first, last) = lemma_image_lines_are_bounds(lines, config);
    lemma_plain_ends(lines, config, style, before, after, rendered, first, last);
    let cuts = lemma_cut_into_records(lines, rendered, config, first, last);
    (rendered, cuts)
}

/// The next record starts at the first header from `from` on, or the lines end.
pub proof fn law_records_are_found(lines: Seq<Seq<u8>>, from: int)
    requires
        0 <= from <= lines.len(),
    ensures
        ({
            let next = next_header(lines, from);
            &&& from <= next <= lines.len()
            &&& forall|i: int| from <= i < next ==> !table::is_header(#[trigger] lines[i])
            &&& next < lines.len() ==> table::is_header(lines[next])
        }),
{
    lemma_next_header(lines, from);
}

/// The record of a line starts at the last header up to the line, or at the line at which the
/// search stops.
pub proof fn law_records_have_starts(lines: Seq<Seq<u8>>, i: int, stop: int)
    requires
        0 <= i < lines.len(),
        0 <= stop,
        has_record_start(lines, i, stop),
    ensures
        ({
            let start = record_start(lines, i, stop);
            &&& 0 <= start <= i
            &&& start == stop || table::is_header(lines[start])
            &&& forall|h: int| start < h <= i ==> !table::is_header(#[trigger] lines[h]) && h
                != stop
        }),
    decreases i,
{
    if i != stop && !table::is_header(lines[i]) {
        if i == 0 {
            assert(stop > 0);
            let h = choose|h: int| 0 <= h < 1 && table::is_header(#[trigger] lines[h]);
            assert(h == 0);
        } else {
            if stop > i {
                let h = choose|h: int| 0 <= h < i + 1 && table::is_header(#[trigger] lines[h]);
                assert(h < i);
            }
            law_records_have_starts(lines, i - 1, stop);
            let start = record_start(lines, i, stop);
            assert(start == record_start(lines, i - 1, stop));
            assert forall|h: int| start < h <= i implies !table::is_header(#[trigger] lines[h]) && h
                != stop by {
                if h < i {
                    assert(!table::is_header(lines[h]) && h != stop);
                }
            }
        }
    }
}

/// Of several candidates for a line the first counts, and a line without one has no tokens.
pub proof fn law_first_candidates_count(
    candidates: Seq<(usize, Vec<Token>)>,
    i: int,
    c: int,
)
    requires
        0 <= c <= candidates.len(),
        forall|d: int| 0 <= d < c ==> (#[trigger] candidates[d]).0 != i,
        c < candidates.len() ==> candidates[c].0 == i,
    ensures
        line_tokens(candidates, i) == if c < candidates.len() {
            scan::spans(candidates[c].1@)
        } else {
            Seq::empty()
        },
{
    lemma_line_tokens(candidates, i, c);
}

} // verus!
