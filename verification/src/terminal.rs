//! What a terminal reads of the kitty and of the iTerm2 protocol.
//!
//! Both name what goes with an image in a list of entries, each with a name, a `=` and a value.

use vstd::prelude::*;

use crate::bytes;
use crate::payload;

verus! {

pub const ESCAPE: u8 = 0x1b;

pub const EQUALS: u8 = 0x3d;

pub const COMMA: u8 = 0x2c;

pub const COLON: u8 = 0x3a;

pub const SEMICOLON: u8 = 0x3b;

pub const BELL: u8 = 0x07;

pub const BACKSLASH: u8 = 0x5c;

/// The first position from `from` on that holds `byte`, or the end.
pub open spec fn first_at(text: Seq<u8>, byte: u8, from: int) -> int
    decreases text.len() - from,
{
    if 0 <= from < text.len() && text[from] != byte {
        first_at(text, byte, from + 1)
    } else {
        from
    }
}

/// The value of the first entry with a name, in a list with a separator between entries.
pub open spec fn value_of(list: Seq<u8>, separator: u8, name: Seq<u8>) -> Option<Seq<u8>>
    decreases list.len(),
    via value_of_decreases
{
    let end = first_at(list, separator, 0);
    let entry = list.take(end);
    if name.push(EQUALS).is_prefix_of(entry) {
        Some(entry.skip(name.len() as int + 1))
    } else if end < list.len() {
        value_of(list.skip(end + 1), separator, name)
    } else {
        None
    }
}

#[via_fn]
proof fn value_of_decreases(list: Seq<u8>, separator: u8, name: Seq<u8>) {
    lemma_first_at(list, separator, 0);
}

/// The number that digits stand for, after a minus sign where there is one; nothing for any
/// other text.
pub open spec fn read_number(value: Option<Seq<u8>>) -> Option<int> {
    match value {
        None => None,
        Some(text) => if text.len() > 0 && bytes::digits_end(text, 0) == text.len() {
            Some(bytes::number(text))
        } else if text.len() > 1 && text[0] == 0x2d && bytes::digits_end(text, 1)
            == text.len() {
            Some(-bytes::number(text.skip(1)))
        } else {
            None
        },
    }
}

proof fn lemma_first_at(text: Seq<u8>, byte: u8, from: int)
    requires
        0 <= from <= text.len(),
    ensures
        from <= first_at(text, byte, from) <= text.len(),
    decreases text.len() - from,
{
    if from < text.len() && text[from] != byte {
        lemma_first_at(text, byte, from + 1);
    }
}

proof fn lemma_first_at_is(text: Seq<u8>, byte: u8, from: int, at: int)
    requires
        0 <= from <= at <= text.len(),
        forall|i: int| from <= i < at ==> text[i] != byte,
        at == text.len() || text[at] == byte,
    ensures
        first_at(text, byte, from) == at,
    decreases at - from,
{
    if from < at {
        lemma_first_at_is(text, byte, from + 1, at);
    }
}

/// A byte that a text lacks is found after it.
proof fn lemma_first_after(text: Seq<u8>, rest: Seq<u8>, byte: u8)
    requires
        !text.contains(byte),
        rest.len() == 0 || rest[0] == byte,
    ensures
        first_at(text + rest, byte, 0) == text.len(),
{
    let both = text + rest;
    assert forall|i: int| 0 <= i < text.len() implies both[i] != byte by {
        assert(text.contains(text[i]));
    }
    lemma_first_at_is(both, byte, 0, text.len() as int);
}

/// An entry of a list.
pub ghost struct Entry {
    pub name: Seq<u8>,
    pub value: Seq<u8>,
}

impl Entry {
    /// The entry as it is written.
    pub open spec fn text(self) -> Seq<u8> {
        self.name + seq![EQUALS] + self.value
    }

    /// The entry can be told apart in a list.
    pub open spec fn is_plain(self, separator: u8) -> bool {
        &&& !self.name.contains(separator)
        &&& !self.name.contains(EQUALS)
        &&& !self.value.contains(separator)
        &&& separator != EQUALS
    }
}

/// Entries as they are written, each with a separator before it.
pub open spec fn tail_text(entries: Seq<Entry>, separator: u8) -> Seq<u8>
    decreases entries.len(),
{
    if entries.len() == 0 {
        Seq::empty()
    } else {
        seq![separator] + entries[0].text() + tail_text(entries.drop_first(), separator)
    }
}

/// The value of the first entry with a name.
pub open spec fn lookup(entries: Seq<Entry>, name: Seq<u8>) -> Option<Seq<u8>>
    decreases entries.len(),
{
    if entries.len() == 0 {
        None
    } else if entries[0].name == name {
        Some(entries[0].value)
    } else {
        lookup(entries.drop_first(), name)
    }
}

/// An entry that may be missing.
pub open spec fn maybe(name: Seq<u8>, value: Option<Seq<u8>>) -> Seq<Entry> {
    match value {
        Some(value) => seq![Entry { name, value }],
        None => Seq::empty(),
    }
}

/// All entries can be told apart in a list.
pub open spec fn all_plain(entries: Seq<Entry>, separator: u8) -> bool {
    forall|i: int| 0 <= i < entries.len() ==> (#[trigger] entries[i]).is_plain(separator)
}

/// A name is told from the names of other entries.
proof fn lemma_entry_name(entry: Entry, name: Seq<u8>)
    requires
        !entry.name.contains(EQUALS),
        !name.contains(EQUALS),
    ensures
        name.push(EQUALS).is_prefix_of(entry.text()) <==> entry.name == name,
        entry.text().skip(entry.name.len() as int + 1) == entry.value,
{
    let text = entry.text();
    let key = name.push(EQUALS);
    assert(text.skip(entry.name.len() as int + 1) =~= entry.value);
    if key.is_prefix_of(text) {
        let start = text.subrange(0, key.len() as int);
        assert(start[name.len() as int] == EQUALS);
        if name.len() < entry.name.len() {
            assert(entry.name[name.len() as int] == EQUALS);
        } else if name.len() > entry.name.len() {
            assert(text[entry.name.len() as int] == EQUALS);
            assert(key[entry.name.len() as int] == start[entry.name.len() as int]);
            assert(name[entry.name.len() as int] == EQUALS);
        } else {
            assert forall|i: int| 0 <= i < name.len() implies name[i] == entry.name[i] by {
                assert(key[i] == start[i]);
            }
            assert(name =~= entry.name);
        }
    }
    if entry.name == name {
        assert(key =~= text.subrange(0, key.len() as int));
    }
}

/// What is read of a list is what was written in it.
pub proof fn lemma_list_is_read(entry: Entry, entries: Seq<Entry>, separator: u8, name: Seq<u8>)
    requires
        entry.is_plain(separator),
        all_plain(entries, separator),
        !name.contains(EQUALS),
    ensures
        value_of(entry.text() + tail_text(entries, separator), separator, name) == if entry.name
            == name {
            Some(entry.value)
        } else {
            lookup(entries, name)
        },
    decreases entries.len(),
{
    let rest = tail_text(entries, separator);
    let list = entry.text() + rest;
    assert(!entry.text().contains(separator)) by {
        assert(!seq![EQUALS].contains(separator));
        bytes::lemma_lacks_joined(entry.name, seq![EQUALS], separator);
        bytes::lemma_lacks_joined(entry.name + seq![EQUALS], entry.value, separator);
    }
    lemma_first_after(entry.text(), rest, separator);
    let end = entry.text().len() as int;
    assert(list.take(end) =~= entry.text());
    lemma_entry_name(entry, name);
    if entries.len() > 0 {
        let later = entries.drop_first();
        assert forall|i: int| 0 <= i < later.len() implies (#[trigger] later[i]).is_plain(
            separator,
        ) by {
            assert(later[i] == entries[i + 1]);
        }
        lemma_list_is_read(entries[0], later, separator, name);
        assert(list.skip(end + 1) =~= entries[0].text() + tail_text(later, separator));
    }
}

/// Entries after entries.
pub proof fn lemma_entries_joined(a: Seq<Entry>, b: Seq<Entry>, separator: u8, name: Seq<u8>)
    ensures
        tail_text(a + b, separator) == tail_text(a, separator) + tail_text(b, separator),
        lookup(a + b, name) == if lookup(a, name) is Some {
            lookup(a, name)
        } else {
            lookup(b, name)
        },
        all_plain(a, separator) && all_plain(b, separator) ==> all_plain(a + b, separator),
    decreases a.len(),
{
    if a.len() == 0 {
        assert(a + b =~= b);
        assert(Seq::<u8>::empty() + tail_text(b, separator) =~= tail_text(b, separator));
    } else {
        lemma_entries_joined(a.drop_first(), b, separator, name);
        assert((a + b).drop_first() =~= a.drop_first() + b);
        bytes::lemma_append_parts(
            seq![separator] + a[0].text(),
            tail_text(a.drop_first(), separator),
            tail_text(b, separator),
        );
    }
    assert forall|i: int| 0 <= i < (a + b).len() && all_plain(a, separator) && all_plain(
        b,
        separator,
    ) implies (#[trigger] (a + b)[i]).is_plain(separator) by {
        if i < a.len() {
            assert((a + b)[i] == a[i]);
        } else {
            assert((a + b)[i] == b[i - a.len()]);
        }
    }
}

/// One entry, or none.
pub proof fn lemma_maybe(name: Seq<u8>, value: Option<Seq<u8>>, separator: u8, wanted: Seq<u8>)
    ensures
        tail_text(maybe(name, value), separator) == match value {
            Some(value) => seq![separator] + name + seq![EQUALS] + value,
            None => Seq::empty(),
        },
        lookup(maybe(name, value), wanted) == if name == wanted {
            value
        } else {
            None
        },
        (value matches Some(value) ==> Entry { name, value }.is_plain(separator)) ==> all_plain(
            maybe(name, value),
            separator,
        ),
{
    reveal_with_fuel(tail_text, 2);
    reveal_with_fuel(lookup, 2);
    if let Some(value) = value {
        let entry = Entry { name, value };
        assert(seq![separator] + entry.text() + Seq::empty() =~= seq![separator] + name + seq![
            EQUALS,
        ] + value);
    }
}

/// A number is read as it was written.
pub proof fn lemma_number_is_read(n: nat)
    ensures
        read_number(Some(bytes::decimal(n))) == Some(n as int),
        bytes::decimal(n).len() > 0,
{
    let digits = bytes::decimal(n);
    bytes::lemma_decimal(n);
    bytes::lemma_decimal_last(n);
    lemma_all_digits(digits, 0);
}

proof fn lemma_all_digits(text: Seq<u8>, from: int)
    requires
        0 <= from <= text.len(),
        forall|i: int| from <= i < text.len() ==> bytes::is_digit(#[trigger] text[i]),
    ensures
        bytes::digits_end(text, from) == text.len(),
    decreases text.len() - from,
{
    if from < text.len() {
        assert(bytes::is_digit(text[from]));
        lemma_all_digits(text, from + 1);
    }
}

/// A number with a sign is read as it was written.
pub proof fn lemma_signed_number_is_read(n: int)
    ensures
        read_number(Some(bytes::signed_decimal(n))) == Some(n),
{
    if n < 0 {
        let digits = bytes::decimal((-n) as nat);
        let text = bytes::signed_decimal(n);
        bytes::lemma_decimal((-n) as nat);
        bytes::lemma_decimal_last((-n) as nat);
        assert(text.skip(1) =~= digits);
        assert forall|i: int| 1 <= i < text.len() implies bytes::is_digit(#[trigger] text[i]) by {
            assert(text[i] == digits[i - 1]);
        }
        lemma_all_digits(text, 1);
        assert(!bytes::is_digit(text[0]));
    } else {
        lemma_number_is_read(n as nat);
    }
}

/// A file that iTerm2 is sent, and what goes with it.
pub ghost struct InlineFile {
    pub arguments: Seq<u8>,
    pub payload: Seq<u8>,
}

/// What iTerm2 reads of a whole escape sequence: `ESC ]1337;File=`, the arguments up to the
/// first colon, and the file up to the BEL at the end.
pub open spec fn inline_file(text: Seq<u8>) -> Option<InlineFile> {
    let lead = seq![
        ESCAPE,
        0x5du8,
        0x31,
        0x33,
        0x33,
        0x37,
        SEMICOLON,
        0x46,
        0x69,
        0x6c,
        0x65,
        EQUALS,
    ];
    let colon = first_at(text, COLON, 0);
    let end = first_at(text, BELL, 0);
    if lead.is_prefix_of(text) && 12 <= colon < end && end == text.len() - 1 {
        Some(
            InlineFile {
                arguments: text.subrange(12, colon),
                payload: text.subrange(colon + 1, end),
            },
        )
    } else {
        None
    }
}

/// What is written in one escape sequence is read of it.
pub proof fn lemma_inline_file(lead: Seq<u8>, arguments: Seq<u8>, payload: Seq<u8>)
    requires
        lead == seq![
            ESCAPE,
            0x5du8,
            0x31,
            0x33,
            0x33,
            0x37,
            SEMICOLON,
            0x46,
            0x69,
            0x6c,
            0x65,
            EQUALS,
        ],
        !arguments.contains(COLON),
        !arguments.contains(BELL),
        !payload.contains(BELL),
    ensures
        inline_file(lead + arguments + seq![COLON] + payload + seq![BELL]) == Some(
            InlineFile { arguments, payload },
        ),
{
    let text = lead + arguments + seq![COLON] + payload + seq![BELL];
    assert(!lead.contains(COLON) && !lead.contains(BELL));
    assert(!seq![COLON].contains(BELL));
    bytes::lemma_lacks_joined(lead, arguments, COLON);
    bytes::lemma_lacks_joined(lead, arguments, BELL);
    bytes::lemma_lacks_joined(lead + arguments, seq![COLON], BELL);
    bytes::lemma_lacks_joined(lead + arguments + seq![COLON], payload, BELL);
    let head = lead + arguments;
    assert(text =~= head + (seq![COLON] + payload + seq![BELL]));
    lemma_first_after(head, seq![COLON] + payload + seq![BELL], COLON);
    lemma_first_after(head + seq![COLON] + payload, seq![BELL], BELL);
    let colon = head.len() as int;
    assert(lead =~= text.subrange(0, 12));
    assert(text.subrange(12, colon) =~= arguments);
    assert(text.subrange(colon + 1, text.len() - 1) =~= payload);
}

/// A number of pixels: digits and `px`.
pub open spec fn read_pixels(value: Option<Seq<u8>>) -> Option<int> {
    match value {
        None => None,
        Some(text) => if text.len() > 2 && text[text.len() - 2] == 0x70 && text.last() == 0x78 {
            read_number(Some(text.take(text.len() - 2)))
        } else {
            None
        },
    }
}

/// A number of pixels is read as it was written.
pub proof fn lemma_pixels_are_read(n: nat, px: Seq<u8>)
    requires
        px == seq![0x70u8, 0x78],
    ensures
        read_pixels(Some(bytes::decimal(n) + px)) == Some(n as int),
{
    lemma_number_is_read(n);
    let text = bytes::decimal(n) + px;
    assert(text.take(text.len() - 2) =~= bytes::decimal(n));
}

/// One command of the kitty protocol: keys, and a part of an image.
pub ghost struct Packet {
    pub keys: Seq<u8>,
    pub payload: Seq<u8>,
}

/// What stands in a command: the keys up to the first semicolon, and after it the payload.
pub open spec fn packet_of(body: Seq<u8>) -> Packet {
    let end = first_at(body, SEMICOLON, 0);
    Packet {
        keys: body.take(end),
        payload: if end < body.len() {
            body.skip(end + 1)
        } else {
            Seq::empty()
        },
    }
}

/// The commands of a text of nothing but commands, each from `ESC _G` to the next `ESC \`;
/// nothing for any other text.
pub open spec fn packets(text: Seq<u8>) -> Option<Seq<Packet>>
    decreases text.len(),
    via packets_decreases
{
    let end = first_at(text, ESCAPE, 3);
    if text.len() == 0 {
        Some(Seq::empty())
    } else if text.len() >= 5 && text[0] == ESCAPE && text[1] == 0x5f && text[2] == 0x47 && end + 1
        < text.len() && text[end + 1] == BACKSLASH {
        match packets(text.skip(end + 2)) {
            Some(later) => Some(seq![packet_of(text.subrange(3, end))] + later),
            None => None,
        }
    } else {
        None
    }
}

#[via_fn]
proof fn packets_decreases(text: Seq<u8>) {
    if text.len() >= 3 {
        lemma_first_at(text, ESCAPE, 3);
    }
}

/// The value of a key of one letter.
pub open spec fn key(packet: Packet, name: u8) -> Option<Seq<u8>> {
    value_of(packet.keys, COMMA, seq![name])
}

/// What the packets carry together.
pub open spec fn carried(packets: Seq<Packet>) -> Seq<u8> {
    packets.map_values(|packet: Packet| packet.payload).flatten()
}

/// The packet says that more of the same image follows.
pub open spec fn says_more(packet: Packet) -> bool {
    key(packet, 0x6d) == Some(seq![0x31u8])
}

/// The packets bring one image: each but the last says that more follow, the last of several
/// says that it is the last, and each carries as much as a terminal takes, but the last may carry
/// less.
pub open spec fn bring_one_image(packets: Seq<Packet>) -> bool {
    &&& packets.len() > 0
    &&& forall|i: int|
        0 <= i < packets.len() ==> {
            &&& says_more(#[trigger] packets[i]) <==> i + 1 < packets.len()
            &&& packets[i].payload.len() <= 4096
            &&& i + 1 < packets.len() ==> packets[i].payload.len() == 4096
        }
    &&& packets.len() > 1 ==> key(packets.last(), 0x6d) == Some(seq![0x30u8])
}

/// One command as it is written.
pub open spec fn packet_text(body: Seq<u8>) -> Seq<u8> {
    seq![ESCAPE, 0x5fu8, 0x47] + body + seq![ESCAPE, BACKSLASH]
}

/// A command is read as it was written, whatever follows.
pub proof fn lemma_packet_is_read(body: Seq<u8>, rest: Seq<u8>)
    requires
        !body.contains(ESCAPE),
    ensures
        packets(packet_text(body) + rest) == match packets(rest) {
            Some(later) => Some(seq![packet_of(body)] + later),
            None => None,
        },
{
    let text = packet_text(body) + rest;
    let end = 3 + body.len() as int;
    assert forall|i: int| 3 <= i < end implies text[i] != ESCAPE by {
        assert(text[i] == body[i - 3]);
        assert(body.contains(body[i - 3]));
    }
    lemma_first_at_is(text, ESCAPE, 3, end);
    assert(text.subrange(3, end) =~= body);
    assert(text.skip(end + 2) =~= rest);
}

/// Keys and payload are read as they were written.
pub proof fn lemma_packet_of(keys: Seq<u8>, payload: Seq<u8>)
    requires
        !keys.contains(SEMICOLON),
    ensures
        packet_of(keys + seq![SEMICOLON] + payload) == (Packet { keys, payload }),
        packet_of(keys) == (Packet { keys, payload: Seq::empty() }),
{
    let body = keys + seq![SEMICOLON] + payload;
    assert(body =~= keys + (seq![SEMICOLON] + payload));
    lemma_first_after(keys, seq![SEMICOLON] + payload, SEMICOLON);
    assert(body.take(keys.len() as int) =~= keys);
    assert(body.skip(keys.len() as int + 1) =~= payload);
    assert(keys + Seq::empty() =~= keys);
    lemma_first_after(keys, Seq::empty(), SEMICOLON);
    assert(keys.take(keys.len() as int) =~= keys);
}

/// Commands after commands.
pub proof fn lemma_packets_joined(a: Seq<u8>, b: Seq<u8>)
    requires
        packets(a) is Some,
        packets(b) is Some,
    ensures
        packets(a + b) == Some(packets(a)->Some_0 + packets(b)->Some_0),
    decreases a.len(),
{
    if a.len() == 0 {
        assert(a + b =~= b);
        assert(packets(a)->Some_0 + packets(b)->Some_0 =~= packets(b)->Some_0);
    } else {
        let end = first_at(a, ESCAPE, 3);
        lemma_first_at(a, ESCAPE, 3);
        lemma_first_at_found(a, ESCAPE, 3);
        let both = a + b;
        assert forall|i: int| 3 <= i < end implies both[i] != ESCAPE by {
            assert(both[i] == a[i]);
        }
        lemma_first_at_is(both, ESCAPE, 3, end);
        lemma_packets_joined(a.skip(end + 2), b);
        assert(both.skip(end + 2) =~= a.skip(end + 2) + b);
        assert(both.subrange(3, end) =~= a.subrange(3, end));
        let later = packets(a.skip(end + 2))->Some_0;
        let first = seq![packet_of(a.subrange(3, end))];
        assert(first + (later + packets(b)->Some_0) =~= first + later + packets(b)->Some_0);
    }
}

proof fn lemma_first_at_found(text: Seq<u8>, byte: u8, from: int)
    requires
        0 <= from <= text.len(),
    ensures
        forall|i: int| from <= i < first_at(text, byte, from) ==> text[i] != byte,
        first_at(text, byte, from) < text.len() ==> text[first_at(text, byte, from)] == byte,
    decreases text.len() - from,
{
    if from < text.len() && text[from] != byte {
        lemma_first_at_found(text, byte, from + 1);
    }
}

/// A row of commands is read one by one.
pub proof fn lemma_packets_in_a_row(bodies: spec_fn(int) -> Seq<u8>, n: nat)
    requires
        forall|i: int| 0 <= i < n ==> !(#[trigger] bodies(i)).contains(ESCAPE),
    ensures
        packets(Seq::new(n, |i: int| packet_text(bodies(i))).flatten()) == Some(
            Seq::new(n, |i: int| packet_of(bodies(i))),
        ),
    decreases n,
{
    let texts = |i: int| packet_text(bodies(i));
    let read = |i: int| packet_of(bodies(i));
    if n == 0 {
        assert(Seq::new(0, texts).flatten() =~= Seq::empty());
        assert(Seq::new(0, read) =~= Seq::empty());
    } else {
        let m = (n - 1) as nat;
        lemma_packets_in_a_row(bodies, m);
        bytes::lemma_flatten_next(texts, m);
        assert(!bodies(m as int).contains(ESCAPE));
        let last = packet_text(bodies(m as int));
        lemma_packet_is_read(bodies(m as int), Seq::empty());
        assert(last + Seq::empty() =~= last);
        assert(seq![read(m as int)] + Seq::empty() =~= seq![read(m as int)]);
        lemma_packets_joined(Seq::new(m, texts).flatten(), last);
        assert(Seq::new(n, read) =~= Seq::new(m, read) + seq![read(m as int)]);
    }
}

/// A key of one letter with its value, or nothing.
pub ghost struct KeyValue {
    pub name: u8,
    pub value: Option<Seq<u8>>,
}

impl KeyValue {
    /// The key as it is written in a list, with a comma before it.
    pub open spec fn text(self) -> Seq<u8> {
        match self.value {
            Some(value) => seq![COMMA, self.name, EQUALS] + value,
            None => Seq::empty(),
        }
    }

    /// Neither the name nor the value holds `byte`.
    pub open spec fn lacks(self, byte: u8) -> bool {
        self.name != byte && (self.value matches Some(value) ==> !value.contains(byte))
    }
}

/// The first `n` keys as they are written.
pub open spec fn keys_text(keys: Seq<KeyValue>, n: nat) -> Seq<u8>
    decreases n,
{
    if n == 0 {
        Seq::empty()
    } else {
        keys_text(keys, (n - 1) as nat) + keys[n - 1].text()
    }
}

/// The value of the first of `n` keys that has the name and a value.
pub open spec fn key_named(keys: Seq<KeyValue>, n: nat, name: u8) -> Option<Seq<u8>>
    decreases n,
{
    if n == 0 {
        None
    } else if key_named(keys, (n - 1) as nat, name) is Some {
        key_named(keys, (n - 1) as nat, name)
    } else if keys[n - 1].name == name {
        keys[n - 1].value
    } else {
        None
    }
}

spec fn key_entries(keys: Seq<KeyValue>, n: nat) -> Seq<Entry>
    decreases n,
{
    if n == 0 {
        Seq::empty()
    } else {
        key_entries(keys, (n - 1) as nat) + maybe(seq![keys[n - 1].name], keys[n - 1].value)
    }
}

/// All keys lack `byte`.
pub open spec fn all_lack(keys: Seq<KeyValue>, byte: u8) -> bool {
    forall|i: int| 0 <= i < keys.len() ==> (#[trigger] keys[i]).lacks(byte)
}

proof fn lemma_key_entries(keys: Seq<KeyValue>, n: nat, name: u8)
    requires
        n <= keys.len(),
        all_lack(keys, COMMA),
        forall|i: int| 0 <= i < keys.len() ==> (#[trigger] keys[i]).name != EQUALS,
    ensures
        tail_text(key_entries(keys, n), COMMA) == keys_text(keys, n),
        lookup(key_entries(keys, n), seq![name]) == key_named(keys, n, name),
        all_plain(key_entries(keys, n), COMMA),
    decreases n,
{
    if n > 0 {
        let last = keys[n - 1];
        lemma_key_entries(keys, (n - 1) as nat, name);
        assert(last.lacks(COMMA));
        assert(!seq![last.name].contains(COMMA) && !seq![last.name].contains(EQUALS));
        lemma_maybe(seq![last.name], last.value, COMMA, seq![name]);
        lemma_entries_joined(
            key_entries(keys, (n - 1) as nat),
            maybe(seq![last.name], last.value),
            COMMA,
            seq![name],
        );
        assert(seq![last.name][0] == last.name && seq![name][0] == name);
        if let Some(value) = last.value {
            assert(seq![COMMA] + seq![last.name] + seq![EQUALS] + value =~= last.text());
        }
    }
}

/// Keys are read as they were written.
pub proof fn lemma_keys_are_read(first: KeyValue, keys: Seq<KeyValue>, name: u8)
    requires
        first.value is Some,
        first.lacks(COMMA),
        first.name != EQUALS,
        all_lack(keys, COMMA),
        forall|i: int| 0 <= i < keys.len() ==> (#[trigger] keys[i]).name != EQUALS,
        name != EQUALS,
    ensures
        value_of(
            seq![first.name, EQUALS] + first.value->Some_0 + keys_text(keys, keys.len()),
            COMMA,
            seq![name],
        ) == if first.name == name {
            first.value
        } else {
            key_named(keys, keys.len(), name)
        },
{
    let entry = Entry { name: seq![first.name], value: first.value->Some_0 };
    lemma_key_entries(keys, keys.len(), name);
    assert(!seq![first.name].contains(COMMA) && !seq![first.name].contains(EQUALS));
    assert(!seq![name].contains(EQUALS));
    lemma_list_is_read(entry, key_entries(keys, keys.len()), COMMA, seq![name]);
    assert(entry.text() =~= seq![first.name, EQUALS] + first.value->Some_0);
    assert(seq![first.name][0] == first.name && seq![name][0] == name);
}

/// A byte that is in none of the keys is not in their text.
pub proof fn lemma_keys_lack(keys: Seq<KeyValue>, n: nat, byte: u8)
    requires
        n <= keys.len(),
        all_lack(keys, byte),
        byte != COMMA,
        byte != EQUALS,
    ensures
        !keys_text(keys, n).contains(byte),
    decreases n,
{
    if n > 0 {
        lemma_keys_lack(keys, (n - 1) as nat, byte);
        let last = keys[n - 1];
        assert(last.lacks(byte));
        if let Some(value) = last.value {
            assert(!seq![COMMA, last.name, EQUALS].contains(byte));
            bytes::lemma_lacks_joined(seq![COMMA, last.name, EQUALS], value, byte);
        }
        bytes::lemma_lacks_joined(keys_text(keys, (n - 1) as nat), last.text(), byte);
    }
}

/// How many packets belong to the first image of a row of packets.
pub open spec fn image_len(packets: Seq<Packet>) -> nat
    decreases packets.len(),
{
    if packets.len() == 0 {
        0
    } else if says_more(packets[0]) {
        1 + image_len(packets.drop_first())
    } else {
        1
    }
}

/// The packets, those of one image together.
pub open spec fn images(packets: Seq<Packet>) -> Seq<Seq<Packet>>
    decreases packets.len(),
    via images_decreases
{
    if packets.len() == 0 {
        Seq::empty()
    } else {
        let n = image_len(packets) as int;
        seq![packets.take(n)] + images(packets.skip(n))
    }
}

#[via_fn]
proof fn images_decreases(packets: Seq<Packet>) {
    lemma_image_len(packets);
}

proof fn lemma_image_len(packets: Seq<Packet>)
    ensures
        packets.len() > 0 ==> 1 <= image_len(packets) <= packets.len(),
        image_len(packets) <= packets.len(),
    decreases packets.len(),
{
    if packets.len() > 0 {
        lemma_image_len(packets.drop_first());
    }
}

proof fn lemma_image_len_is(packets: Seq<Packet>, n: nat)
    requires
        0 < n <= packets.len(),
        forall|i: int| 0 <= i < n ==> (says_more(#[trigger] packets[i]) <==> i + 1 < n),
    ensures
        image_len(packets) == n,
    decreases n,
{
    if n > 1 {
        let later = packets.drop_first();
        assert(says_more(packets[0]));
        assert forall|i: int| 0 <= i < n - 1 implies (says_more(#[trigger] later[i]) <==> i + 1 < n
            - 1) by {
            assert(later[i] == packets[i + 1]);
        }
        lemma_image_len_is(later, (n - 1) as nat);
    } else {
        assert(!says_more(packets[0]));
    }
}

/// The packets of one image are told from those that follow.
pub proof fn lemma_first_image(image: Seq<Packet>, rest: Seq<Packet>)
    requires
        image.len() > 0,
        forall|i: int|
            0 <= i < image.len() ==> (says_more(#[trigger] image[i]) <==> i + 1 < image.len()),
    ensures
        images(image + rest) == seq![image] + images(rest),
{
    let all = image + rest;
    assert forall|i: int| 0 <= i < image.len() implies (says_more(#[trigger] all[i]) <==> i + 1
        < image.len()) by {
        assert(all[i] == image[i]);
    }
    lemma_image_len_is(all, image.len());
    assert(all.take(image.len() as int) =~= image);
    assert(all.skip(image.len() as int) =~= rest);
}

/// The packets bring pixels, row by row, four bytes for each: as many as the width after `s=`
/// and the height after `v=` say, where they say it rightly.
pub open spec fn bring_pixels(packets: Seq<Packet>, width: u32, height: u32, rgba: Seq<u8>) -> bool {
    &&& bring_one_image(packets)
    &&& read_number(key(packets[0], 0x66)) == Some(32int)
    &&& read_number(key(packets[0], 0x73)) == Some(width as int)
    &&& read_number(key(packets[0], 0x76)) == Some(height as int)
    &&& payload::unbase64(carried(packets)) == rgba
}

/// The number after a key is that of the settings, and the key is missing where there is none.
pub open spec fn tells(packet: Packet, name: u8, number: Option<u32>) -> bool {
    match number {
        Some(number) => read_number(key(packet, name)) == Some(number as int),
        None => key(packet, name) is None,
    }
}

/// Packets are those of one image: each but the last says that more follow.
pub open spec fn are_one(image: Seq<Packet>) -> bool {
    &&& image.len() > 0
    &&& forall|i: int|
        0 <= i < image.len() ==> (says_more(#[trigger] image[i]) <==> i + 1 < image.len())
}

/// The text of an image is read before what follows it.
pub proof fn lemma_image_is_read(text: Seq<u8>, image: Seq<Packet>, rest: Seq<u8>)
    requires
        packets(text) == Some(image),
        are_one(image),
        packets(rest) is Some,
    ensures
        packets(text + rest) is Some,
        images(packets(text + rest)->Some_0) == seq![image] + images(packets(rest)->Some_0),
{
    lemma_packets_joined(text, rest);
    lemma_first_image(image, packets(rest)->Some_0);
}

proof fn lemma_only_entries(keys: Seq<KeyValue>, n: nat, name: Seq<u8>)
    requires
        n <= keys.len(),
    ensures
        lookup(key_entries(keys, n), name) is Some ==> exists|i: int|
            0 <= i < n && name == seq![(#[trigger] keys[i]).name] && keys[i].value is Some,
    decreases n,
{
    if n > 0 {
        let last = keys[n - 1];
        lemma_only_entries(keys, (n - 1) as nat, name);
        lemma_maybe(seq![last.name], last.value, COMMA, name);
        lemma_entries_joined(
            key_entries(keys, (n - 1) as nat),
            maybe(seq![last.name], last.value),
            COMMA,
            name,
        );
    }
}

/// Nothing is read but the keys that were written.
pub proof fn lemma_only_keys_are_read(first: KeyValue, keys: Seq<KeyValue>, name: Seq<u8>)
    requires
        first.value is Some,
        first.lacks(COMMA),
        first.name != EQUALS,
        all_lack(keys, COMMA),
        forall|i: int| 0 <= i < keys.len() ==> (#[trigger] keys[i]).name != EQUALS,
        !name.contains(EQUALS),
    ensures
        value_of(
            seq![first.name, EQUALS] + first.value->Some_0 + keys_text(keys, keys.len()),
            COMMA,
            name,
        ) is Some ==> name == seq![first.name] || exists|i: int|
            0 <= i < keys.len() && name == seq![(#[trigger] keys[i]).name] && keys[i].value is Some,
{
    let entry = Entry { name: seq![first.name], value: first.value->Some_0 };
    lemma_key_entries(keys, keys.len(), first.name);
    lemma_only_entries(keys, keys.len(), name);
    assert(!seq![first.name].contains(COMMA) && !seq![first.name].contains(EQUALS));
    lemma_list_is_read(entry, key_entries(keys, keys.len()), COMMA, name);
    assert(entry.text() =~= seq![first.name, EQUALS] + first.value->Some_0);
}

/// The packet has no key but some of these, each of one letter.
pub open spec fn has_only(packet: Packet, names: Seq<u8>) -> bool {
    forall|name: Seq<u8>|
        !name.contains(EQUALS) && (#[trigger] value_of(packet.keys, COMMA, name)) is Some
            ==> name.len() == 1 && names.contains(name[0])
}

/// A packet that has only some keys has only more of them.
pub proof fn lemma_has_only(packet: Packet, names: Seq<u8>, more: Seq<u8>)
    requires
        has_only(packet, names),
        forall|i: int| 0 <= i < names.len() ==> more.contains(#[trigger] names[i]),
    ensures
        has_only(packet, more),
{
    assert forall|name: Seq<u8>|
        !name.contains(EQUALS) && (#[trigger] value_of(
            packet.keys,
            COMMA,
            name,
        )) is Some implies name.len() == 1 && more.contains(name[0]) by {
        let i = choose|i: int| 0 <= i < names.len() && names[i] == name[0];
        assert(more.contains(names[i]));
    }
}

/// Numbers are read as they were written, with a sign where they are negative.
pub proof fn law_numbers_are_read(n: int)
    ensures
        read_number(Some(bytes::signed_decimal(n))) == Some(n),
        n >= 0 ==> read_number(Some(bytes::decimal(n as nat))) == Some(n),
{
    lemma_signed_number_is_read(n);
    if n >= 0 {
        lemma_number_is_read(n as nat);
    }
}

} // verus!
