//! Where the output goes, and how the keys move through it.

use vstd::prelude::*;

use crate::bytes;
use crate::bytes::{extend, push_decimal, push_text};
use crate::config::Config;
use crate::layout::{InteractiveOutput, Processed, RowTable};
use crate::term::Protocol;
use crate::terminal;

verus! {

/// Where the output goes.
#[derive(Clone, Copy, Debug, Eq, PartialEq, Structural)]
pub enum Delivery {
    /// To the pager command of the settings.
    Fallback,
    /// Row by row to the terminal, or to standard output where there is no terminal.
    Interactive,
    /// To standard output.
    Stdout,
    /// To the usual pager command.
    DefaultPager,
}

/// A command of the settings goes before all else. A rewritten table is shown here, and
/// anything else is left to the usual pager.
pub open spec fn delivery_of(fallback: bool, rewritten: bool, interactive: bool) -> Delivery {
    if fallback {
        Delivery::Fallback
    } else if rewritten && interactive {
        Delivery::Interactive
    } else if rewritten {
        Delivery::Stdout
    } else {
        Delivery::DefaultPager
    }
}

/// Where the output goes.
pub fn delivery(config: &Config, processed: &Processed) -> (r: Delivery)
    ensures
        r == delivery_of(
            config.fallback is Some,
            processed.rewritten,
            processed.interactive is Some,
        ),
{
    if config.fallback.is_some() {
        return Delivery::Fallback;
    }
    if processed.rewritten {
        if processed.interactive.is_some() {
            Delivery::Interactive
        } else {
            Delivery::Stdout
        }
    } else {
        Delivery::DefaultPager
    }
}

/// A key that was pressed.
#[derive(Clone, Copy, Debug, Eq, PartialEq, Structural)]
pub enum Key {
    Up,
    Down,
    Quit,
    Other,
}

/// What to do after a key.
#[derive(Clone, Copy, Debug, Eq, PartialEq, Structural)]
pub enum Step {
    /// Show the row with this number, counted from 0.
    Show(usize),
    /// Clear the screen and end.
    Leave,
}

/// The row that is shown first; there is none in a table without rows.
pub fn first_row(output: &InteractiveOutput) -> (r: Option<usize>)
    ensures
        r == if output@.rows.len() == 0 {
            None
        } else {
            Some(0usize)
        },
{
    if output.rows.len() == 0 {
        None
    } else {
        Some(0)
    }
}

/// What follows on a key when row `row` of `count` rows is shown: up and down move by one
/// row and stop at either end.
pub open spec fn step_after(row: int, count: int, key: Key) -> Step {
    match key {
        Key::Down if row + 1 < count => Step::Show((row + 1) as usize),
        Key::Up if row > 0 => Step::Show((row - 1) as usize),
        Key::Quit => Step::Leave,
        _ => Step::Show(row as usize),
    }
}

/// What follows on a key when row `row_index` is shown.
pub fn next_step(output: &InteractiveOutput, row_index: usize, key: Key) -> (r: Step)
    requires
        row_index < output@.rows.len(),
    ensures
        r == step_after(row_index as int, output@.rows.len() as int, key),
{
    let count: usize = output.rows.len();
    match key {
        Key::Down => if row_index + 1 < count {
            Step::Show(row_index + 1)
        } else {
            Step::Show(row_index)
        },
        Key::Up => if row_index > 0 {
            Step::Show(row_index - 1)
        } else {
            Step::Show(row_index)
        },
        Key::Quit => Step::Leave,
        Key::Other => Step::Show(row_index),
    }
}

/// What clears the screen, and in the kitty protocol its images.
pub open spec fn clear_text(protocol: Protocol) -> Seq<u8> {
    (if protocol == Protocol::Kitty {
        bytes::text("\x1b_Ga=d,d=A\x1b\\")
    } else {
        Seq::empty()
    }) + bytes::text("\x1b[2J\x1b[H")
}

/// A screen with one row of a table, and a line on it and on the keys.
pub open spec fn screen_text(table: RowTable, row: int, protocol: Protocol) -> Seq<u8> {
    let end = if table.suffix.len() > 0 && table.suffix.last() == bytes::NEWLINE {
        Seq::empty()
    } else {
        seq![bytes::NEWLINE]
    };
    clear_text(protocol) + table.prefix + table.rows[row] + table.suffix + end + bytes::text(
        "\x1b[7m row ",
    ) + bytes::decimal((row + 1) as nat) + bytes::text("/") + bytes::decimal(table.rows.len())
        + bytes::text(" - Up/Down: navigate - q: quit \x1b[0m")
}

/// Appends what clears the screen.
pub fn clear_screen(out: &mut Vec<u8>, protocol: Protocol)
    ensures
        final(out)@ == old(out)@ + clear_text(protocol),
{
    if protocol == Protocol::Kitty {
        push_text(out, "\x1b_Ga=d,d=A\x1b\\");
    }
    push_text(out, "\x1b[2J\x1b[H");
    assert(out@ =~= old(out)@ + clear_text(protocol));
}

/// Appends a screen with row `row_index` of a table.
pub fn render_interactive_row(
    out: &mut Vec<u8>,
    output: &InteractiveOutput,
    row_index: usize,
    protocol: Protocol,
)
    requires
        row_index < output@.rows.len(),
    ensures
        final(out)@ == old(out)@ + screen_text(output@, row_index as int, protocol),
{
    broadcast use bytes::group_append;

    let count: usize = output.rows.len();
    clear_screen(out, protocol);
    extend(out, output.prefix.as_slice());
    extend(out, output.rows[row_index].as_slice());
    extend(out, output.suffix.as_slice());
    let len: usize = output.suffix.len();
    if len == 0 || output.suffix[len - 1] != bytes::NEWLINE {
        let ghost before = out@;
        out.push(bytes::NEWLINE);
        assert(out@ =~= before + seq![bytes::NEWLINE]);
    }
    push_text(out, "\x1b[7m row ");
    push_decimal(out, row_index as u64 + 1);
    push_text(out, "/");
    push_decimal(out, count as u64);
    push_text(out, " - Up/Down: navigate - q: quit \x1b[0m");
}

pub const ESCAPE: u8 = 0x1b;

pub const BRACKET: u8 = 0x5b;

pub const UPPER_A: u8 = 0x41;

pub const UPPER_B: u8 = 0x42;

pub const UPPER_Q: u8 = 0x51;

pub const LOWER_Q: u8 = 0x71;

/// How much of a key has been read from a terminal.
#[derive(Clone, Copy, Debug, Eq, PartialEq, Structural)]
pub enum KeyState {
    /// Nothing.
    Start,
    /// An escape character.
    Escaped,
    /// An escape character and a bracket.
    Bracketed,
}

/// What is known of a key after one more byte.
#[derive(Clone, Copy, Debug, Eq, PartialEq, Structural)]
pub enum KeyRead {
    /// The key.
    Complete(Key),
    /// More bytes are to be read.
    Partial(KeyState),
}

/// How long to wait for the next byte of a key, in milliseconds: for the first one as long
/// as it takes.
pub fn key_timeout_ms(state: KeyState) -> (r: Option<i32>)
    ensures
        r == if state == KeyState::Start {
            None
        } else {
            Some(100i32)
        },
{
    match state {
        KeyState::Start => None,
        KeyState::Escaped | KeyState::Bracketed => Some(100),
    }
}

/// What a byte makes of a key; nothing is a byte that did not come in time.
///
/// A terminal sends `q` as it is, and the arrows as an escape character, a bracket and a letter.
pub open spec fn key_after(state: KeyState, byte: Option<u8>) -> KeyRead {
    match (state, byte) {
        (KeyState::Start, None) => KeyRead::Partial(KeyState::Start),
        (KeyState::Start, Some(byte)) => if byte == ESCAPE {
            KeyRead::Partial(KeyState::Escaped)
        } else if byte == LOWER_Q || byte == UPPER_Q {
            KeyRead::Complete(Key::Quit)
        } else {
            KeyRead::Complete(Key::Other)
        },
        (KeyState::Escaped, byte) => if byte == Some(BRACKET) {
            KeyRead::Partial(KeyState::Bracketed)
        } else {
            KeyRead::Complete(Key::Other)
        },
        (KeyState::Bracketed, byte) => if byte == Some(UPPER_A) {
            KeyRead::Complete(Key::Up)
        } else if byte == Some(UPPER_B) {
            KeyRead::Complete(Key::Down)
        } else {
            KeyRead::Complete(Key::Other)
        },
    }
}

/// Takes one more byte of a key, or none where it did not come in time.
pub fn read_key(state: KeyState, byte: Option<u8>) -> (r: KeyRead)
    ensures
        r == key_after(state, byte),
{
    match state {
        KeyState::Start => match byte {
            None => KeyRead::Partial(KeyState::Start),
            Some(byte) => if byte == LOWER_Q || byte == UPPER_Q {
                KeyRead::Complete(Key::Quit)
            } else if byte == ESCAPE {
                KeyRead::Partial(KeyState::Escaped)
            } else {
                KeyRead::Complete(Key::Other)
            },
        },
        KeyState::Escaped => read_escape_key(KeyState::Escaped, byte),
        KeyState::Bracketed => read_escape_key(KeyState::Bracketed, byte),
    }
}

/// Takes one more byte of a key that started with an escape character.
fn read_escape_key(state: KeyState, byte: Option<u8>) -> (r: KeyRead)
    requires
        state != KeyState::Start,
    ensures
        r == key_after(state, byte),
{
    let byte: u8 = match byte {
        Some(byte) => byte,
        None => return KeyRead::Complete(Key::Other),
    };
    if state == KeyState::Escaped {
        if byte == BRACKET {
            KeyRead::Partial(KeyState::Bracketed)
        } else {
            KeyRead::Complete(Key::Other)
        }
    } else if byte == UPPER_A {
        KeyRead::Complete(Key::Up)
    } else if byte == UPPER_B {
        KeyRead::Complete(Key::Down)
    } else {
        KeyRead::Complete(Key::Other)
    }
}

/// The code of the up arrow on a Windows console.
pub const VK_UP: u16 = 0x26;

/// The code of the down arrow on a Windows console.
pub const VK_DOWN: u16 = 0x28;

/// The key of a Windows console event: nothing where no key went down.
pub open spec fn key_of_event(is_key: bool, is_down: bool, code: u16, unit: u16) -> Option<Key> {
    if !is_key || !is_down {
        None
    } else if code == VK_UP {
        Some(Key::Up)
    } else if code == VK_DOWN {
        Some(Key::Down)
    } else if unit == LOWER_Q || unit == UPPER_Q {
        Some(Key::Quit)
    } else {
        Some(Key::Other)
    }
}

/// The key of a Windows console event with the virtual key `code` and the UTF-16 unit `unit`.
pub fn console_key(is_key: bool, is_down: bool, code: u16, unit: u16) -> (r: Option<Key>)
    ensures
        r == key_of_event(is_key, is_down, code, unit),
{
    if !is_key || !is_down {
        return None;
    }
    if code == VK_UP {
        return Some(Key::Up);
    }
    if code == VK_DOWN {
        return Some(Key::Down);
    }
    if unit == LOWER_Q as u16 || unit == UPPER_Q as u16 {
        Some(Key::Quit)
    } else {
        Some(Key::Other)
    }
}

/// The Unicode property White_Space.
pub open spec fn is_white_space(c: char) -> bool {
    let code = c as int;
    ||| 0x09 <= code <= 0x0d
    ||| code == 0x20
    ||| code == 0x85
    ||| code == 0xa0
    ||| code == 0x1680
    ||| 0x2000 <= code <= 0x200a
    ||| code == 0x2028
    ||| code == 0x2029
    ||| code == 0x202f
    ||| code == 0x205f
    ||| code == 0x3000
}

/// Every character is white space.
pub open spec fn is_blank(value: Seq<char>) -> bool {
    forall|i: int| 0 <= i < value.len() ==> is_white_space(#[trigger] value[i])
}

/// Whether a character is white space.
fn white_space(c: char) -> (r: bool)
    ensures
        r == is_white_space(c),
{
    let code: u32 = c as u32;
    0x09 <= code && code <= 0x0d || code == 0x20 || code == 0x85 || code == 0xa0 || code == 0x1680
        || 0x2000 <= code && code <= 0x200a || code == 0x2028 || code == 0x2029 || code == 0x202f
        || code == 0x205f || code == 0x3000
}

/// The pager command that the user has set, unless it is blank.
pub fn configured_pager(value: Option<String>) -> (r: Option<String>)
    ensures
        r == match value {
            Some(command) => if is_blank(command@) {
                None
            } else {
                value
            },
            None => None,
        },
{
    let command: String = match value {
        Some(command) => command,
        None => return None,
    };
    let len: usize = command.as_str().unicode_len();
    let mut i: usize = 0;
    while i < len
        invariant
            value == Some(command),
            i <= len == command@.len(),
            forall|j: int| 0 <= j < i ==> is_white_space(#[trigger] command@[j]),
        decreases len - i,
    {
        if !white_space(command.as_str().get_char(i)) {
            assert(!is_white_space(command@[i as int]));
            return Some(command);
        }
        i += 1;
    }
    None
}

/// The pager command for a user who has set none.
pub fn default_pager_command(less_exists: bool, windows: bool) -> (r: &'static str)
    ensures
        r@ == if less_exists {
            "less -R"@
        } else if windows {
            "more"@
        } else {
            "cat"@
        },
{
    if less_exists {
        "less -R"
    } else if windows {
        "more"
    } else {
        "cat"
    }
}

/// The characters of strings.
pub open spec fn chars_of(words: Seq<String>) -> Seq<Seq<char>> {
    words.map_values(|word: String| word@)
}

/// The first semicolon from `from` on, or the end.
pub open spec fn semicolon_from(s: Seq<char>, from: int) -> int
    decreases s.len() - from,
{
    if from >= s.len() {
        s.len() as int
    } else if s[from] == ';' {
        from
    } else {
        semicolon_from(s, from + 1)
    }
}

/// The parts between semicolons that are not empty.
pub open spec fn parts(s: Seq<char>) -> Seq<Seq<char>>
    decreases s.len(),
    via parts_decreases
{
    let end = semicolon_from(s, 0);
    (if end == 0 {
        Seq::empty()
    } else {
        seq![s.take(end)]
    }) + (if end < s.len() {
        parts(s.skip(end + 1))
    } else {
        Seq::empty()
    })
}

#[via_fn]
proof fn parts_decreases(s: Seq<char>) {
    lemma_semicolon_from(s, 0);
}

proof fn lemma_semicolon_from(s: Seq<char>, from: int)
    requires
        0 <= from <= s.len(),
    ensures
        from <= semicolon_from(s, from) <= s.len(),
    decreases s.len() - from,
{
    if from < s.len() && s[from] != ';' {
        lemma_semicolon_from(s, from + 1);
    }
}

/// The file names under which a command is looked for: its own name, and where that has no
/// extension, its name with each extension of a list with semicolons.
pub open spec fn names_of(name: Seq<char>, has_extension: bool, extensions: Seq<char>) -> Seq<
    Seq<char>,
> {
    seq![name] + if has_extension {
        Seq::empty()
    } else {
        parts(extensions).map_values(|extension: Seq<char>| name + extension)
    }
}

/// The file names under which a command is looked for.
pub fn command_names(name: &str, has_extension: bool, extensions: &str) -> (r: Vec<String>)
    ensures
        chars_of(r@) == names_of(name@, has_extension, extensions@),
{
    let mut names: Vec<String> = Vec::new();
    names.push(name.to_owned());
    let ghost all = extensions@;
    let ghost named = |extension: Seq<char>| name@ + extension;
    if has_extension {
        assert(chars_of(names@) =~= names_of(name@, has_extension, extensions@));
        return names;
    }
    let len: usize = extensions.unicode_len();
    let mut start: usize = 0;
    assert(all.skip(0) =~= all);
    assert(names_of(name@, false, all) =~= chars_of(names@) + parts(all.skip(0)).map_values(named));
    loop
        invariant
            !has_extension,
            named == (|extension: Seq<char>| name@ + extension),
            all == extensions@,
            start <= len == all.len(),
            names_of(name@, false, all) == chars_of(names@) + parts(
                all.skip(start as int),
            ).map_values(named),
        decreases len - start,
    {
        let ghost rest = all.skip(start as int);
        let mut end: usize = start;
        while end < len && extensions.get_char(end) != ';'
            invariant
                all == extensions@,
                rest == all.skip(start as int),
                start <= end <= len == all.len(),
                semicolon_from(rest, 0) == semicolon_from(rest, end - start),
            decreases len - end,
        {
            end += 1;
        }
        assert(semicolon_from(rest, 0) == end - start);
        let ghost before = names@;
        if end > start {
            let part: &str = extensions.substring_char(start, end);
            names.push(name.to_owned().concat(part));
            proof {
                assert(part@ =~= rest.take(end - start));
                assert(chars_of(names@) =~= chars_of(before).push(name@ + part@));
            }
        }
        let ghost here: Seq<Seq<char>> = if end > start {
            seq![rest.take(end - start)]
        } else {
            Seq::empty()
        };
        assert(chars_of(names@) =~= chars_of(before) + here.map_values(named));
        if end >= len {
            assert(parts(rest) =~= here);
            return names;
        }
        proof {
            let later = parts(rest.skip(end - start + 1));
            assert(rest.skip(end - start + 1) =~= all.skip(end + 1));
            assert(parts(rest) == here + later);
            assert((here + later).map_values(named) =~= here.map_values(named) + later.map_values(
                named,
            ));
            assert(chars_of(names@) + later.map_values(named) =~= chars_of(before) + parts(
                rest,
            ).map_values(named));
        }
        start = end + 1;
    }
}

/// The program and its arguments that run a pager command.
pub fn pager_shell<'a>(command: &'a str, windows: bool) -> (r: Vec<&'a str>)
    ensures
        r@.map_values(|word: &'a str| word@) == if windows {
            seq!["powershell"@, "-NoProfile"@, "-Command"@, command@]
        } else {
            seq!["sh"@, "-c"@, command@]
        },
{
    let mut words: Vec<&'a str> = Vec::new();
    if windows {
        words.push("powershell");
        words.push("-NoProfile");
        words.push("-Command");
    } else {
        words.push("sh");
        words.push("-c");
    }
    words.push(command);
    assert(words@.map_values(|word: &'a str| word@) =~= if windows {
        seq!["powershell"@, "-NoProfile"@, "-Command"@, command@]
    } else {
        seq!["sh"@, "-c"@, command@]
    });
    words
}

/// No key leads to a row that does not exist.
pub proof fn law_rows_stay_in_range(row: usize, count: usize, key: Key)
    requires
        row < count,
    ensures
        step_after(row as int, count as int, key) matches Step::Show(next) ==> next < count,
{
}

/// Where there is a row below, up leads back from it.
pub proof fn law_up_undoes_down(row: usize, count: usize)
    requires
        row + 1 < count,
    ensures
        step_after(row as int, count as int, Key::Down) == Step::Show((row + 1) as usize),
        step_after(row + 1, count as int, Key::Up) == Step::Show(row),
{
}

/// Three bytes are enough for any key.
pub proof fn law_keys_are_short(first: u8, second: Option<u8>, third: Option<u8>)
    ensures
        match key_after(KeyState::Start, Some(first)) {
            KeyRead::Complete(_) => true,
            KeyRead::Partial(state) => match key_after(state, second) {
                KeyRead::Complete(_) => true,
                KeyRead::Partial(state) => key_after(state, third) is Complete,
            },
        },
{
}

/// From every row of every table, quitting leaves, and no other key does.
pub proof fn law_only_quitting_leaves(output: InteractiveOutput, row: usize, key: Key, step: Step)
    requires
        row < output@.rows.len(),
        call_ensures(next_step, (&output, row, key), step),
    ensures
        step == Step::Leave <==> key == Key::Quit,
{
}

/// Down leads to the row below and up to the row above, as long as there is one; at either end
/// of the table, and on any other key that does not quit, the same row is shown again.
pub proof fn law_keys_move_by_one_row(output: InteractiveOutput, row: usize, key: Key, step: Step)
    requires
        row < output@.rows.len(),
        key != Key::Quit,
        call_ensures(next_step, (&output, row, key), step),
    ensures
        step matches Step::Show(next) && {
            &&& next < output@.rows.len()
            &&& next > row <==> key == Key::Down && row + 1 < output@.rows.len()
            &&& next < row <==> key == Key::Up && row > 0
            &&& next <= row + 1
            &&& row <= next + 1
        },
{
    assert(output@.rows.len() == output.rows.len());
}

/// A table is shown from its first row on, and a table without rows is not shown.
pub proof fn law_tables_start_at_the_top(output: InteractiveOutput, row: Option<usize>)
    requires
        call_ensures(first_row, (&output,), row),
    ensures
        row is Some <==> output@.rows.len() > 0,
        row matches Some(row) ==> output@.rows.take(row as int).len() == 0,
{
}

/// A command of the settings gets everything. Without one, the usual pager gets exactly what
/// was not rewritten, and rows are shown exactly where there are some.
pub proof fn law_output_is_delivered_once(config: Config, processed: Processed, to: Delivery)
    requires
        call_ensures(delivery, (&config, &processed), to),
    ensures
        to == Delivery::Fallback <==> config.fallback is Some,
        to == Delivery::DefaultPager <==> config.fallback is None && !processed.rewritten,
        to == Delivery::Interactive <==> config.fallback is None && processed.rewritten
            && processed.interactive is Some,
        to == Delivery::Stdout <==> config.fallback is None && processed.rewritten
            && processed.interactive is None,
{
}

/// The key that up to three bytes stand for, and how many of them it takes; nothing where
/// they are not enough.
pub open spec fn key_of_bytes(first: u8, second: Option<u8>, third: Option<u8>) -> Option<
    (Key, int),
> {
    match key_after(KeyState::Start, Some(first)) {
        KeyRead::Complete(key) => Some((key, 1)),
        KeyRead::Partial(state) => match key_after(state, second) {
            KeyRead::Complete(key) => Some((key, 2)),
            KeyRead::Partial(state) => match key_after(state, third) {
                KeyRead::Complete(key) => Some((key, 3)),
                KeyRead::Partial(_) => None,
            },
        },
    }
}

/// `q` and `Q` quit, an escape character with `[A` is up, one with `[B` is down, and nothing
/// else is any of them. An escape character alone, or with `[` alone, is another key as soon
/// as nothing follows in time. Nothing that did not come is part of a key.
pub proof fn law_bytes_are_keys(first: u8, second: Option<u8>, third: Option<u8>)
    ensures
        key_of_bytes(first, second, third) matches Some((key, used)) && {
            &&& key == Key::Quit <==> first == 0x71 || first == 0x51
            &&& key == Key::Up <==> first == 0x1b && second == Some(0x5bu8) && third == Some(0x41u8)
            &&& key == Key::Down <==> first == 0x1b && second == Some(0x5bu8) && third == Some(
                0x42u8,
            )
            &&& used == if first != 0x1b {
                1int
            } else if second != Some(0x5bu8) {
                2
            } else {
                3
            }
        },
        key_after(KeyState::Start, None) == KeyRead::Partial(KeyState::Start),
{
}

/// Only the first byte of a key is waited for without end.
pub proof fn law_keys_are_waited_for(state: KeyState, timeout: Option<i32>)
    requires
        call_ensures(key_timeout_ms, (state,), timeout),
    ensures
        timeout is None <==> state == KeyState::Start,
        timeout matches Some(timeout) ==> 0 < timeout <= 100,
{
}

/// On a Windows console the arrows are told by their codes and `q` by its letter, and only
/// where a key went down.
pub proof fn law_events_are_keys(is_key: bool, is_down: bool, code: u16, unit: u16)
    ensures
        key_of_event(is_key, is_down, code, unit) is Some <==> is_key && is_down,
        key_of_event(is_key, is_down, code, unit) matches Some(key) ==> {
            &&& key == Key::Up <==> code == 0x26
            &&& key == Key::Down <==> code == 0x28
            &&& key == Key::Quit <==> (unit == 0x71 || unit == 0x51) && code != 0x26 && code != 0x28
        },
{
}

/// A pager command is taken as it is, unless it holds nothing but white space.
pub proof fn law_blank_pagers_are_none(value: Option<String>, command: Option<String>)
    requires
        call_ensures(configured_pager, (value,), command),
    ensures
        command is Some ==> command == value,
        command is Some <==> value is Some && exists|i: int|
            0 <= i < value->Some_0@.len() && !is_white_space(#[trigger] value->Some_0@[i]),
{
}

/// White space is what Unicode says it is: the ASCII controls from tab to carriage return, and
/// these spaces and separators.
pub proof fn law_white_space_is_known(c: char)
    ensures
        is_white_space(c) <==> {
            ||| '\t' <= c <= '\r'
            ||| '\u{2000}' <= c <= '\u{200a}'
            ||| seq![
                ' ',
                '\u{85}',
                '\u{a0}',
                '\u{1680}',
                '\u{2028}',
                '\u{2029}',
                '\u{202f}',
                '\u{205f}',
                '\u{3000}',
            ].contains(c)
        },
{
    let spaces = seq![
        ' ',
        '\u{85}',
        '\u{a0}',
        '\u{1680}',
        '\u{2028}',
        '\u{2029}',
        '\u{202f}',
        '\u{205f}',
        '\u{3000}',
    ];
    assert(spaces[0] == ' ' && spaces[1] == '\u{85}' && spaces[2] == '\u{a0}');
    assert(spaces[3] == '\u{1680}' && spaces[4] == '\u{2028}' && spaces[5] == '\u{2029}');
    assert(spaces[6] == '\u{202f}' && spaces[7] == '\u{205f}' && spaces[8] == '\u{3000}');
}

/// A list without a semicolon is one part, or none where it is empty.
pub proof fn law_single_part(s: Seq<char>)
    requires
        !s.contains(';'),
    ensures
        parts(s) == if s.len() == 0 {
            Seq::empty()
        } else {
            seq![s]
        },
{
    lemma_semicolon_from_is(s, 0, s.len() as int);
    assert(s.take(s.len() as int) =~= s);
    assert(parts(s) =~= if s.len() == 0 {
        Seq::empty()
    } else {
        seq![s]
    });
}

proof fn lemma_semicolon_from_is(s: Seq<char>, from: int, end: int)
    requires
        0 <= from <= end <= s.len(),
        forall|i: int| from <= i < end ==> s[i] != ';',
        end < s.len() ==> s[end] == ';',
    ensures
        semicolon_from(s, from) == end,
    decreases end - from,
{
    if from < end {
        lemma_semicolon_from_is(s, from + 1, end);
    }
}

/// The parts of two lists with a semicolon between them are the parts of either, in order.
pub proof fn law_parts_are_joined(a: Seq<char>, b: Seq<char>)
    ensures
        parts(a + seq![';'] + b) == parts(a) + parts(b),
    decreases a.len(),
{
    let both = a + seq![';'] + b;
    let end = semicolon_from(a, 0);
    lemma_semicolon_from(a, 0);
    lemma_semicolon_from_found(a, 0);
    assert forall|i: int| 0 <= i < end implies both[i] != ';' by {
        assert(both[i] == a[i]);
    }
    assert(both[end] == ';');
    lemma_semicolon_from_is(both, 0, end);
    assert(both.take(end) =~= a.take(end));
    if end < a.len() {
        law_parts_are_joined(a.skip(end + 1), b);
        assert(both.skip(end + 1) =~= a.skip(end + 1) + seq![';'] + b);
    } else {
        assert(both.skip(end + 1) =~= b);
    }
    assert(parts(both) =~= parts(a) + parts(b));
}

proof fn lemma_semicolon_from_found(s: Seq<char>, from: int)
    requires
        0 <= from <= s.len(),
    ensures
        forall|i: int| from <= i < semicolon_from(s, from) ==> s[i] != ';',
        semicolon_from(s, from) < s.len() ==> s[semicolon_from(s, from)] == ';',
    decreases s.len() - from,
{
    if from < s.len() && s[from] != ';' {
        lemma_semicolon_from_found(s, from + 1);
    }
}

/// A command is looked for under its own name first, and then with each extension in turn,
/// unless it has one.
pub proof fn law_commands_are_looked_for(
    name: Seq<char>,
    has_extension: bool,
    extensions: Seq<char>,
)
    ensures
        ({
            let names = names_of(name, has_extension, extensions);
            &&& names.len() == if has_extension {
                1
            } else {
                1 + parts(extensions).len()
            }
            &&& names[0] == name
            &&& forall|i: int|
                1 <= i < names.len() ==> #[trigger] names[i] == name + parts(extensions)[i - 1]
        }),
{
}

/// A screen is cleared, in the kitty protocol with its images, and then holds the start of the
/// table, one of its rows and its end, unchanged and in this order. On a line of its own after
/// them it tells the number of the row, counted from 1, and how many there are.
pub proof fn law_screens_show_one_row(table: RowTable, row: int, protocol: Protocol)
    requires
        0 <= row < table.rows.len(),
    ensures
        exists|before: Seq<u8>, after: Seq<u8>|
            {
                &&& screen_text(table, row, protocol) == #[trigger] (before + table.prefix
                    + table.rows[row] + table.suffix + after)
                &&& before == if protocol == Protocol::Kitty {
                    bytes::text("\x1b_Ga=d,d=A\x1b\\") + bytes::text("\x1b[2J\x1b[H")
                } else {
                    bytes::text("\x1b[2J\x1b[H")
                }
                &&& tells_row(
                    if table.suffix.len() > 0 && table.suffix.last() == 0x0a {
                        after
                    } else {
                        after.skip(1)
                    },
                    row + 1,
                    table.rows.len() as int,
                )
                &&& table.suffix.len() > 0 && table.suffix.last() == 0x0a || after.len() > 0
                    && after[0] == 0x0a
            },
{
    broadcast use bytes::group_append;

    let end = if table.suffix.len() > 0 && table.suffix.last() == bytes::NEWLINE {
        Seq::empty()
    } else {
        seq![bytes::NEWLINE]
    };
    let status = bytes::text("\x1b[7m row ") + bytes::decimal((row + 1) as nat) + bytes::text("/")
        + bytes::decimal(table.rows.len()) + bytes::text(
        " - Up/Down: navigate - q: quit \x1b[0m",
    );
    let before = clear_text(protocol);
    let after = end + status;
    assert(Seq::<u8>::empty() + bytes::text("\x1b[2J\x1b[H") =~= bytes::text("\x1b[2J\x1b[H"));
    assert(screen_text(table, row, protocol) == before + table.prefix + table.rows[row]
        + table.suffix + after);
    assert((seq![bytes::NEWLINE] + status).skip(1) =~= status);
    assert(Seq::<u8>::empty() + status =~= status);
    lemma_status_tells_row(row + 1, table.rows.len() as int);
}

/// A text tells that it stands for row `row` of `count`: these are the first two numbers after
/// its first ` row `.
pub open spec fn tells_row(text: Seq<u8>, row: int, count: int) -> bool {
    let at = 9int;
    let slash = bytes::digits_end(text, at);
    &&& text.len() > 9
    &&& text.subrange(4, 9) == seq![0x20u8, 0x72, 0x6f, 0x77, 0x20]
    &&& bytes::number(text.subrange(at, slash)) == row
    &&& slash < text.len()
    &&& text[slash] == 0x2f
    &&& bytes::number(text.subrange(slash + 1, bytes::digits_end(text, slash + 1))) == count
}

proof fn lemma_status_tells_row(row: int, count: int)
    requires
        0 <= row,
        0 <= count,
    ensures
        tells_row(
            bytes::text("\x1b[7m row ") + bytes::decimal(row as nat) + bytes::text("/")
                + bytes::decimal(count as nat) + bytes::text(
                " - Up/Down: navigate - q: quit \x1b[0m",
            ),
            row,
            count,
        ),
{
    reveal_strlit("\x1b[7m row ");
    reveal_strlit("/");
    reveal_strlit(" - Up/Down: navigate - q: quit \x1b[0m");
    vstd::utf8::is_ascii_chars_encode_utf8("\x1b[7m row "@);
    vstd::utf8::is_ascii_chars_encode_utf8("/"@);
    vstd::utf8::is_ascii_chars_encode_utf8(" - Up/Down: navigate - q: quit \x1b[0m"@);
    let (lead, slash) = (bytes::text("\x1b[7m row "), bytes::text("/"));
    let tail = bytes::text(" - Up/Down: navigate - q: quit \x1b[0m");
    let (r, c) = (bytes::decimal(row as nat), bytes::decimal(count as nat));
    let text = lead + r + slash + c + tail;
    assert(lead.len() == 9);
    assert(text.subrange(4, 9) =~= seq![0x20u8, 0x72, 0x6f, 0x77, 0x20]);
    bytes::lemma_decimal(row as nat);
    bytes::lemma_decimal(count as nat);
    let at = 9 + r.len() as int;
    assert forall|i: int| 9 <= i < at implies bytes::is_digit(#[trigger] text[i]) by {
        assert(text[i] == r[i - 9]);
    }
    assert(text[at] == slash[0]);
    bytes::lemma_digits_end_is(text, 9, at);
    assert(text.subrange(9, at) =~= r);
    let end = at + 1 + c.len() as int;
    assert forall|i: int| at + 1 <= i < end implies bytes::is_digit(#[trigger] text[i]) by {
        assert(text[i] == c[i - at - 1]);
    }
    assert(text[end] == tail[0]);
    bytes::lemma_digits_end_is(text, at + 1, end);
    assert(text.subrange(at + 1, end) =~= c);
}

/// A screen is cleared by `ESC [2J`, with `ESC [H` the writing starts at its top, and in the kitty
/// protocol all images are deleted before.
pub proof fn law_screens_are_cleared(protocol: Protocol)
    ensures
        ({
            let text = clear_text(protocol);
            let erased = seq![0x1bu8, 0x5b, 0x32, 0x4a, 0x1b, 0x5b, 0x48];
            &&& erased.is_suffix_of(text)
            &&& protocol != Protocol::Kitty ==> text == erased
            &&& protocol == Protocol::Kitty ==> {
                &&& terminal::packets(text.take(text.len() - 7)) matches Some(read)
                &&& read.len() == 1
                &&& terminal::key(read[0], 0x61) == Some(seq![0x64u8])
                &&& terminal::key(read[0], 0x64) == Some(seq![0x41u8])
            }
        }),
{
    reveal_strlit("\x1b_Ga=d,d=A\x1b\\");
    reveal_strlit("\x1b[2J\x1b[H");
    vstd::utf8::is_ascii_chars_encode_utf8("\x1b_Ga=d,d=A\x1b\\"@);
    vstd::utf8::is_ascii_chars_encode_utf8("\x1b[2J\x1b[H"@);
    let text = clear_text(protocol);
    let erased = seq![0x1bu8, 0x5b, 0x32, 0x4a, 0x1b, 0x5b, 0x48];
    assert(bytes::text("\x1b[2J\x1b[H") =~= erased);
    assert(erased =~= text.subrange(text.len() - 7, text.len() as int));
    if protocol == Protocol::Kitty {
        let first = terminal::Entry { name: seq![0x61u8], value: seq![0x64u8] };
        let second = terminal::Entry { name: seq![0x64u8], value: seq![0x41u8] };
        let body = first.text() + terminal::tail_text(seq![second], terminal::COMMA);
        let command = text.take(text.len() - 7);
        reveal_with_fuel(terminal::tail_text, 2);
        reveal_with_fuel(terminal::lookup, 2);
        assert(body =~= seq![0x61u8, 0x3d, 0x64, 0x2c, 0x64, 0x3d, 0x41]);
        assert(command =~= terminal::packet_text(body));
        assert(command + Seq::empty() =~= command);
        terminal::lemma_packet_is_read(body, Seq::empty());
        terminal::lemma_packet_of(body, Seq::empty());
        assert(seq![0x61u8][0] != seq![0x64u8][0]);
        terminal::lemma_list_is_read(first, seq![second], terminal::COMMA, seq![0x61u8]);
        terminal::lemma_list_is_read(first, seq![second], terminal::COMMA, seq![0x64u8]);
        assert(seq![terminal::packet_of(body)] + Seq::<terminal::Packet>::empty() =~= seq![
            terminal::packet_of(body),
        ]);
    } else {
        assert(text =~= erased);
    }
}

/// Where `less` is there it is the pager, with raw control characters, on any system. Where it is
/// not, the pager is one word that names a program of the system.
pub proof fn law_pagers_show_images(less_exists: bool, windows: bool, command: &'static str)
    requires
        call_ensures(default_pager_command, (less_exists, windows), command),
    ensures
        less_exists <==> command@ == seq!['l', 'e', 's', 's', ' ', '-', 'R'],
        !less_exists && windows <==> command@ == seq!['m', 'o', 'r', 'e'],
        !less_exists && !windows <==> command@ == seq!['c', 'a', 't'],
{
    reveal_strlit("less -R");
    reveal_strlit("more");
    reveal_strlit("cat");
    let less = seq!['l', 'e', 's', 's', ' ', '-', 'R'];
    let more = seq!['m', 'o', 'r', 'e'];
    let cat = seq!['c', 'a', 't'];
    assert("less -R"@ =~= less);
    assert("more"@ =~= more);
    assert("cat"@ =~= cat);
    assert(less.len() == 7 && more.len() == 4 && cat.len() == 3);
}

/// A pager command is the last word that its shell gets, as it stands, and the words before it
/// are those of any other command.
pub proof fn law_shells_get_the_command<'a>(
    first: &'a str,
    second: &'a str,
    windows: bool,
    a: Vec<&'a str>,
    b: Vec<&'a str>,
)
    requires
        call_ensures(pager_shell, (first, windows), a),
        call_ensures(pager_shell, (second, windows), b),
    ensures
        a@.len() == b@.len() == if windows {
            4int
        } else {
            3int
        },
        a@.last()@ == first@,
        b@.last()@ == second@,
        forall|i: int| 0 <= i < a@.len() - 1 ==> (#[trigger] a@[i])@ == b@[i]@,
        windows ==> a@[0]@ == "powershell"@ && a@[2]@ == "-Command"@,
        !windows ==> a@[0]@ == "sh"@ && a@[1]@ == "-c"@,
{
    let x = a@.map_values(|word: &'a str| word@);
    let y = b@.map_values(|word: &'a str| word@);
    assert forall|i: int| 0 <= i < a@.len() implies (#[trigger] a@[i])@ == x[i] by {}
    assert forall|i: int| 0 <= i < b@.len() implies (#[trigger] b@[i])@ == y[i] by {}
    assert(x.len() == a@.len() && y.len() == b@.len());
    assert(a@.last()@ == x[a@.len() - 1]);
    assert(b@.last()@ == y[b@.len() - 1]);
}

} // verus!
