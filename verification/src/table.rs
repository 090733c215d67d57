//! Tables as psql prints them, and which of them have one column.

use vstd::prelude::*;

use crate::bytes;
use crate::bytes::{contains_byte, contains_bytes, starts_with, trim_ascii};

verus! {

pub const PIPE: u8 = 0x7c;

pub const DASH: u8 = 0x2d;

pub const PLUS: u8 = 0x2b;

/// How a table is laid out.
#[derive(Clone, Copy, Debug, Eq, PartialEq, Structural)]
pub enum Mode {
    /// In columns of equal width under a rule.
    Aligned,
    /// One row to a line, nothing filled up.
    Unaligned,
    /// One field to a line, a header line before each record.
    Expanded,
}

/// A line of the input, with its newline where it has one.
#[derive(Clone, Copy)]
pub struct Line<'a> {
    pub bytes: &'a [u8],
}

/// The bytes of lines.
pub open spec fn line_bytes(lines: Seq<Line<'_>>) -> Seq<Seq<u8>> {
    lines.map_values(|line: Line<'_>| line.bytes@)
}

/// The position after the first newline from `from` on, or the end where there is none.
pub open spec fn line_end(input: Seq<u8>, from: int) -> int
    decreases input.len() - from,
{
    if from >= input.len() {
        input.len() as int
    } else if input[from] == bytes::NEWLINE {
        from + 1
    } else {
        line_end(input, from + 1)
    }
}

/// The lines of the input, each with its newline; the last one may have none.
pub open spec fn lines(input: Seq<u8>) -> Seq<Seq<u8>>
    decreases input.len(),
    via lines_decreases
{
    if input.len() == 0 {
        Seq::empty()
    } else {
        let end = line_end(input, 0);
        seq![input.take(end)] + lines(input.skip(end))
    }
}

#[via_fn]
proof fn lines_decreases(input: Seq<u8>) {
    lemma_line_end(input, 0);
}

proof fn lemma_line_end(input: Seq<u8>, from: int)
    requires
        0 <= from <= input.len(),
    ensures
        from <= line_end(input, from) <= input.len(),
        from < input.len() ==> from < line_end(input, from),
        forall|i: int| from <= i < line_end(input, from) - 1 ==> input[i] != bytes::NEWLINE,
        line_end(input, from) < input.len() ==> input[line_end(input, from) - 1] == bytes::NEWLINE,
    decreases input.len() - from,
{
    if from < input.len() && input[from] != bytes::NEWLINE {
        lemma_line_end(input, from + 1);
    }
}

/// A line without its newline.
pub open spec fn content(line: Seq<u8>) -> Seq<u8> {
    if line.len() > 0 && line.last() == bytes::NEWLINE {
        line.drop_last()
    } else {
        line
    }
}

/// The line starts a record of an expanded table.
pub open spec fn is_header(line: Seq<u8>) -> bool {
    bytes::text("-[ RECORD").is_prefix_of(content(line))
}

/// The line holds a field of an expanded table: a name, a bar and a value.
pub open spec fn is_field(line: Seq<u8>) -> bool {
    let inner = bytes::trimmed(content(line));
    &&& !is_header(line)
    &&& inner.len() > 0
    &&& !bytes::text("(").is_prefix_of(inner)
    &&& bytes::occurs(content(line), bytes::text(" | "))
}

/// The line is the rule under the column names of an aligned table.
pub open spec fn is_rule(line: Seq<u8>) -> bool {
    let inner = bytes::trimmed(content(line));
    &&& forall|i: int|
        0 <= i < inner.len() ==> inner[i] == DASH || inner[i] == PLUS || inner[i] == bytes::SPACE
    &&& inner.contains(DASH)
}

/// A bar, which separates columns, stands in the line.
pub open spec fn has_bar(line: Seq<u8>) -> bool {
    content(line).contains(PIPE)
}

/// Some line from `from` up to `to` starts a record.
pub open spec fn has_header(lines: Seq<Seq<u8>>, from: int, to: int) -> bool {
    exists|i: int| from <= i < to && is_header(#[trigger] lines[i])
}

/// Lines `i` and `j` are two fields of one record.
pub open spec fn share_record(lines: Seq<Seq<u8>>, i: int, j: int) -> bool {
    &&& 0 <= i < j < lines.len()
    &&& is_field(lines[i])
    &&& is_field(lines[j])
    &&& has_header(lines, 0, i)
    &&& !has_header(lines, i, j)
}

/// The lines are an expanded table in which no record has two fields.
pub open spec fn is_single_column(lines: Seq<Seq<u8>>) -> bool {
    &&& has_header(lines, 0, lines.len() as int)
    &&& exists|i: int| 0 <= i < lines.len() && is_field(#[trigger] lines[i])
    &&& forall|i: int, j: int| !share_record(lines, i, j)
}

/// Some line is the rule of an aligned table.
pub open spec fn has_rule(lines: Seq<Seq<u8>>) -> bool {
    exists|i: int| 0 <= i < lines.len() && is_rule(#[trigger] lines[i])
}

/// The layout of a table of one column; nothing for any other table. `barred` says whether
/// a bar stands in some line with an image.
pub open spec fn mode_of(lines: Seq<Seq<u8>>, barred: bool) -> Option<Mode> {
    if has_header(lines, 0, lines.len() as int) {
        if is_single_column(lines) {
            Some(Mode::Expanded)
        } else {
            None
        }
    } else if barred {
        None
    } else if has_rule(lines) {
        Some(Mode::Aligned)
    } else {
        Some(Mode::Unaligned)
    }
}

impl<'a> Line<'a> {
    /// The line without its newline.
    pub fn content_without_newline(&self) -> (r: &'a [u8])
        ensures
            r@ == content(self.bytes@),
    {
        let len: usize = self.bytes.len();
        if len > 0 && self.bytes[len - 1] == bytes::NEWLINE {
            let inner: &'a [u8] = vstd::slice::slice_subrange(self.bytes, 0, len - 1);
            assert(inner@ =~= content(self.bytes@));
            inner
        } else {
            self.bytes
        }
    }
}

/// The lines of the input, each with its newline.
pub fn split_inclusive_lines(input: &[u8]) -> (r: Vec<Line<'_>>)
    ensures
        line_bytes(r@) == lines(input@),
{
    let mut found: Vec<Line<'_>> = Vec::new();
    let mut start: usize = 0;
    let mut index: usize = 0;
    assert(input@.skip(0) =~= input@);
    assert(line_bytes(found@) + lines(input@) =~= lines(input@));
    while index < input.len()
        invariant
            start <= index <= input@.len(),
            lines(input@) == line_bytes(found@) + lines(input@.skip(start as int)),
            line_end(input@.skip(start as int), 0) == line_end(
                input@.skip(start as int),
                index - start,
            ),
        decreases input@.len() - index,
    {
        let ghost rest = input@.skip(start as int);
        if input[index] == bytes::NEWLINE {
            let line = Line { bytes: vstd::slice::slice_subrange(input, start, index + 1) };
            let ghost before = found@;
            found.push(line);
            proof {
                assert(line_end(rest, 0) == index + 1 - start);
                assert(line.bytes@ =~= rest.take(index + 1 - start));
                assert(rest.skip(index + 1 - start) =~= input@.skip(index + 1));
                assert(line_bytes(found@) =~= line_bytes(before).push(line.bytes@));
                assert(line_bytes(found@) + lines(input@.skip(index + 1)) =~= line_bytes(before)
                    + lines(rest));
            }
            start = index + 1;
        }
        index += 1;
    }
    let ghost rest = input@.skip(start as int);
    if start < input.len() {
        let line = Line { bytes: vstd::slice::slice_subrange(input, start, input.len()) };
        let ghost before = found@;
        found.push(line);
        proof {
            assert(line.bytes@ =~= rest.take(rest.len() as int));
            assert(rest.skip(rest.len() as int) =~= Seq::empty());
            assert(lines(rest) =~= seq![line.bytes@]) by {
                assert(line_end(rest, 0) == rest.len());
                assert(lines(Seq::empty()) =~= Seq::empty());
            }
            assert(line_bytes(found@) =~= line_bytes(before).push(line.bytes@));
            assert(line_bytes(found@) =~= line_bytes(before) + lines(rest));
        }
    } else {
        assert(line_bytes(found@) + lines(rest) =~= line_bytes(found@));
    }
    found
}

/// Whether a line starts a record of an expanded table.
pub fn is_record_start(line: Line<'_>) -> (r: bool)
    ensures
        r == is_header(line.bytes@),
{
    starts_with(line.content_without_newline(), "-[ RECORD".as_bytes())
}

/// Whether some line starts a record of an expanded table.
pub fn looks_expanded(lines: &[Line<'_>]) -> (r: bool)
    ensures
        r == has_header(line_bytes(lines@), 0, lines@.len() as int),
{
    let mut i: usize = 0;
    while i < lines.len()
        invariant
            i <= lines@.len(),
            !has_header(line_bytes(lines@), 0, i as int),
        decreases lines@.len() - i,
    {
        assert(line_bytes(lines@)[i as int] == lines@[i as int].bytes@);
        if is_record_start(lines[i]) {
            return true;
        }
        i += 1;
    }
    false
}

/// Whether the lines are an expanded table in which no record has two fields.
pub fn expanded_is_single_column(lines: &[Line<'_>]) -> (r: bool)
    ensures
        r == is_single_column(line_bytes(lines@)),
{
    let ghost all = line_bytes(lines@);
    let mut fields_in_record: usize = 0;
    let mut saw_record: bool = false;
    let mut saw_value: bool = false;
    let ghost mut header: int = -1;
    let mut i: usize = 0;
    while i < lines.len()
        invariant
            all == line_bytes(lines@),
            i <= lines@.len(),
            fields_in_record <= i,
            -1 <= header < i,
            saw_record == (header >= 0),
            header >= 0 ==> is_header(all[header]),
            !has_header(all, header + 1, i as int),
            saw_value == exists|p: int| 0 <= p < i && is_field(#[trigger] all[p]),
            fields_in_record == 0 ==> forall|p: int| header < p < i ==> !is_field(#[trigger] all[p]),
            fields_in_record > 0 ==> exists|p: int| header < p < i && is_field(#[trigger] all[p]),
            fields_in_record <= 1 ==> forall|p: int, q: int|
                header < p < q < i ==> !(is_field(#[trigger] all[p]) && is_field(#[trigger] all[q])),
            fields_in_record > 1 ==> exists|p: int, q: int|
                header < p < q < i && is_field(#[trigger] all[p]) && is_field(#[trigger] all[q]),
            forall|p: int, q: int| q < header ==> !share_record(all, p, q),
        decreases lines@.len() - i,
    {
        let content: &[u8] = lines[i].content_without_newline();
        assert(all[i as int] == lines@[i as int].bytes@);
        if starts_with(content, "-[ RECORD".as_bytes()) {
            if saw_record && fields_in_record > 1 {
                proof {
                    let (p, q) = choose|p: int, q: int|
                        header < p < q < i && is_field(#[trigger] all[p]) && is_field(
                            #[trigger] all[q],
                        );
                    assert(share_record(all, p, q));
                }
                return false;
            }
            assert forall|p: int, q: int| q < i implies !share_record(all, p, q) by {
                if share_record(all, p, q) && header >= 0 {
                    assert(q != header);
                    if p < header {
                        assert(is_header(all[header]));
                    }
                }
            }
            proof {
                header = i as int;
            }
            saw_record = true;
            fields_in_record = 0;
        } else if !starts_with(trim_ascii(content), "(".as_bytes()) && trim_ascii(content).len() > 0
            && contains_bytes(content, " | ".as_bytes()) {
            assert(is_field(all[i as int]));
            fields_in_record += 1;
            saw_value = true;
        }
        i += 1;
    }
    proof {
        if fields_in_record > 1 && header >= 0 {
            let (p, q) = choose|p: int, q: int|
                header < p < q < i && is_field(#[trigger] all[p]) && is_field(#[trigger] all[q]);
            assert(is_header(all[header]));
            assert(share_record(all, p, q));
        }
        if fields_in_record <= 1 && header >= 0 {
            assert(is_header(all[header]));
            assert forall|p: int, q: int| !share_record(all, p, q) by {
                if share_record(all, p, q) {
                    assert(q != header);
                    assert(p < header);
                }
            }
        }
    }
    saw_record && saw_value && fields_in_record <= 1
}

/// Whether some line is the rule of an aligned table.
pub fn looks_aligned(lines: &[Line<'_>]) -> (r: bool)
    ensures
        r == has_rule(line_bytes(lines@)),
{
    let mut i: usize = 0;
    while i < lines.len()
        invariant
            i <= lines@.len(),
            forall|j: int| 0 <= j < i ==> !is_rule(#[trigger] line_bytes(lines@)[j]),
        decreases lines@.len() - i,
    {
        let content: &[u8] = trim_ascii(lines[i].content_without_newline());
        assert(line_bytes(lines@)[i as int] == lines@[i as int].bytes@);
        if only_rules(content) && contains_byte(content, DASH) {
            return true;
        }
        i += 1;
    }
    false
}

/// Whether all of the bytes can stand in a rule.
fn only_rules(content: &[u8]) -> (r: bool)
    ensures
        r == forall|i: int|
            0 <= i < content@.len() ==> content@[i] == DASH || content@[i] == PLUS || content@[i]
                == bytes::SPACE,
{
    let mut i: usize = 0;
    while i < content.len()
        invariant
            i <= content@.len(),
            forall|j: int|
                0 <= j < i ==> content@[j] == DASH || content@[j] == PLUS || content@[j]
                    == bytes::SPACE,
        decreases content@.len() - i,
    {
        if content[i] != DASH && content[i] != PLUS && content[i] != bytes::SPACE {
            return false;
        }
        i += 1;
    }
    true
}

/// The lines are the whole input.
pub proof fn law_lines_are_the_input(input: Seq<u8>)
    ensures
        lines(input).flatten() == input,
    decreases input.len(),
{
    if input.len() > 0 {
        let end = line_end(input, 0);
        lemma_line_end(input, 0);
        law_lines_are_the_input(input.skip(end));
        let all = lines(input);
        assert(all.drop_first() =~= lines(input.skip(end)));
        assert(all.flatten() =~= input);
    }
}

/// No line is empty, a newline stands nowhere but at the end of a line, and only the last
/// line may lack it.
pub proof fn law_newlines_end_lines(input: Seq<u8>, i: int)
    requires
        0 <= i < lines(input).len(),
    ensures
        lines(input)[i].len() > 0,
        !content(lines(input)[i]).contains(bytes::NEWLINE),
        i < lines(input).len() - 1 ==> lines(input)[i].last() == bytes::NEWLINE,
    decreases input.len(),
{
    let end = line_end(input, 0);
    lemma_line_end(input, 0);
    let rest = lines(input.skip(end));
    if i == 0 {
        let line = input.take(end);
        assert(lines(input)[0] == line);
        assert forall|j: int| 0 <= j < content(line).len() implies content(line)[j]
            != bytes::NEWLINE by {
            assert(content(line)[j] == input[j]);
        }
        if rest.len() > 0 {
            assert(input.skip(end).len() > 0);
            assert(line.last() == input[end - 1]);
        }
    } else {
        law_newlines_end_lines(input.skip(end), i - 1);
        assert(lines(input)[i] == rest[i - 1]);
    }
}

/// A line is a part of the input.
pub proof fn lemma_line_is_part(input: Seq<u8>, i: int) -> (offset: int)
    requires
        0 <= i < lines(input).len(),
    ensures
        0 <= offset <= offset + lines(input)[i].len() <= input.len(),
        lines(input)[i] == input.subrange(offset, offset + lines(input)[i].len()),
        i == lines(input).len() - 1 ==> offset + lines(input)[i].len() == input.len(),
    decreases input.len(),
{
    let end = line_end(input, 0);
    lemma_line_end(input, 0);
    if i == 0 {
        assert(lines(input)[0] =~= input.subrange(0, end));
        0
    } else {
        let rest = input.skip(end);
        let offset = lemma_line_is_part(rest, i - 1);
        let line = lines(rest)[i - 1];
        assert(lines(input)[i] == line);
        assert(line =~= input.subrange(end + offset, end + offset + line.len()));
        end + offset
    }
}

/// A record of an expanded table starts with a line that starts with `-[ RECORD`.
pub proof fn law_headers_start_so(line: Seq<u8>)
    ensures
        is_header(line) <==> line.len() >= 9 && line.take(9) == seq![
            0x2du8,
            0x5b,
            0x20,
            0x52,
            0x45,
            0x43,
            0x4f,
            0x52,
            0x44,
        ],
{
    reveal_strlit("-[ RECORD");
    vstd::utf8::is_ascii_chars_encode_utf8("-[ RECORD"@);
    let start = seq![0x2du8, 0x5b, 0x20, 0x52, 0x45, 0x43, 0x4f, 0x52, 0x44];
    assert(bytes::text("-[ RECORD") =~= start);
    let inner = content(line);
    if line.len() >= 9 {
        if inner.len() >= 9 {
            assert(inner.subrange(0, 9) =~= line.take(9));
        } else {
            assert(line.take(9)[8] == bytes::NEWLINE);
            assert(start[8] == 0x44);
        }
    }
}

/// A bar stands in a line where the byte `|` does.
pub proof fn law_bars_stand_in_lines(line: Seq<u8>)
    ensures
        has_bar(line) <==> line.contains(0x7c),
{
    if line.contains(0x7c) {
        let i = choose|i: int| 0 <= i < line.len() && line[i] == 0x7c;
        assert(content(line)[i] == 0x7c);
    }
}

/// A line without its newline is the line up to there, and a line that has none is left as it is.
pub proof fn law_newlines_are_dropped(line: Seq<u8>)
    ensures
        content(line).len() == line.len() - (if line.len() > 0 && line.last() == 0x0a {
            1int
        } else {
            0
        }),
        content(line).len() <= line.len(),
        content(line) == line.take(content(line).len() as int),
        forall|i: int| content(line).len() <= i < line.len() ==> line[i] == bytes::NEWLINE,
{
    assert(content(line) =~= line.take(content(line).len() as int));
}

/// The rule under the column names is a line of dashes, with pluses and spaces among them and
/// white space around them, and of nothing else.
pub proof fn law_rules_are_dashes(line: Seq<u8>)
    ensures
        is_rule(line) <==> exists|from: int, to: int| #[trigger] is_ruled(line, from, to),
{
    let inner = content(line);
    let t = bytes::trimmed(inner);
    let start = bytes::law_trimmed_is_a_part(inner);
    law_newlines_are_dropped(line);
    let end = start + t.len();
    assert forall|i: int| start <= i < end implies t[i - start] == line[i] by {
        assert(inner[i] == line[i]);
    }
    assert forall|i: int| 0 <= i < start || end <= i < line.len() implies bytes::is_ascii_white(
        #[trigger] line[i],
    ) by {
        if i < inner.len() {
            assert(inner[i] == line[i]);
        }
    }
    if is_rule(line) {
        assert(is_ruled(line, start, end)) by {
            let k = choose|k: int| 0 <= k < t.len() && t[k] == DASH;
            assert(line[start + k] == 0x2d);
        }
    }
    if exists|from: int, to: int| #[trigger] is_ruled(line, from, to) {
        let (from, to) = choose|from: int, to: int| #[trigger] is_ruled(line, from, to);
        let k = choose|k: int| from <= k < to && #[trigger] line[k] == 0x2d;
        assert(!bytes::is_ascii_white(line[k]));
        assert(start <= k < end);
        assert(t[k - start] == DASH);
        assert(!bytes::is_ascii_white(t[0]) && !bytes::is_ascii_white(t.last()));
        assert(!bytes::is_ascii_white(line[start]) && !bytes::is_ascii_white(line[end - 1]));
        assert(from <= start && end <= to);
        assert forall|i: int| 0 <= i < t.len() implies t[i] == DASH || t[i] == PLUS || t[i]
            == bytes::SPACE by {
            assert(t[i] == line[start + i]);
        }
    }
}

/// Between `from` and `to` the line holds dashes, pluses and spaces, at least one of them a dash,
/// and elsewhere it holds white space.
pub open spec fn is_ruled(line: Seq<u8>, from: int, to: int) -> bool {
    &&& 0 <= from <= to <= line.len()
    &&& forall|i: int|
        0 <= i < from || to <= i < line.len() ==> bytes::is_ascii_white(#[trigger] line[i])
    &&& forall|i: int|
        from <= i < to ==> (#[trigger] line[i] == 0x2d || line[i] == 0x2b || line[i] == 0x20)
    &&& exists|i: int| from <= i < to && #[trigger] line[i] == 0x2d
}

/// A field of an expanded table is a line with a bar between two spaces that does not start a
/// record and whose first byte other than white space is no bracket.
pub proof fn law_fields_hold_bars(line: Seq<u8>)
    ensures
        is_field(line) <==> {
            &&& !is_header(line)
            &&& exists|i: int|
                0 < i < line.len() - 1 && line[i - 1] == 0x20 && #[trigger] line[i] == 0x7c && line[i
                    + 1] == 0x20
            &&& forall|i: int|
                0 <= i < line.len() && #[trigger] is_first_black(line, i) ==> line[i] != 0x28
        },
{
    reveal_strlit(" | ");
    reveal_strlit("(");
    vstd::utf8::is_ascii_chars_encode_utf8(" | "@);
    vstd::utf8::is_ascii_chars_encode_utf8("("@);
    let bar = seq![0x20u8, 0x7c, 0x20];
    assert(bytes::text(" | ") =~= bar);
    assert(bytes::text("(") =~= seq![0x28u8]);
    let inner = content(line);
    let t = bytes::trimmed(inner);
    let start = bytes::law_trimmed_is_a_part(inner);
    law_newlines_are_dropped(line);
    assert forall|i: int| 0 <= i < inner.len() implies inner[i] == line[i] by {}
    let barred = exists|i: int|
        0 < i < line.len() - 1 && line[i - 1] == 0x20 && #[trigger] line[i] == 0x7c && line[i + 1]
            == 0x20;
    if bytes::occurs(inner, bar) {
        let at = choose|at: int| bytes::occurs_at(inner, bar, at);
        assert(inner.subrange(at, at + 3)[0] == 0x20);
        assert(inner.subrange(at, at + 3)[1] == 0x7c);
        assert(inner.subrange(at, at + 3)[2] == 0x20);
        assert(line[at + 1] == 0x7c);
    }
    if barred {
        let i = choose|i: int|
            0 < i < line.len() - 1 && line[i - 1] == 0x20 && #[trigger] line[i] == 0x7c && line[i
                + 1] == 0x20;
        assert(inner.subrange(i - 1, i + 2) =~= bar);
        assert(bytes::occurs_at(inner, bar, i - 1));
        assert(!bytes::is_ascii_white(inner[i]));
        assert(start <= i < start + t.len());
    }
    if t.len() > 0 {
        assert(t[0] == line[start]);
        assert forall|j: int| 0 <= j < start implies bytes::is_ascii_white(#[trigger] line[j]) by {
            assert(inner[j] == line[j]);
        }
        assert(is_first_black(line, start));
        if t[0] == 0x28 {
            assert(seq![0x28u8] =~= t.subrange(0, 1));
        }
        if seq![0x28u8].is_prefix_of(t) {
            assert(t.subrange(0, 1)[0] == 0x28);
        }
        assert forall|i: int| 0 <= i < line.len() && #[trigger] is_first_black(line, i) implies i
            == start by {
            if i < start {
                assert(bytes::is_ascii_white(line[i]));
            } else if start < i {
                assert(bytes::is_ascii_white(line[start]));
            }
        }
    }
}

/// Position `i` holds the first byte of the line that is no white space.
pub open spec fn is_first_black(line: Seq<u8>, i: int) -> bool {
    &&& !bytes::is_ascii_white(line[i])
    &&& forall|j: int| 0 <= j < i ==> bytes::is_ascii_white(#[trigger] line[j])
}

} // verus!
