//! Operations on byte strings that the other modules share.

use vstd::prelude::*;

verus! {

pub const NEWLINE: u8 = 0x0a;

pub const SPACE: u8 = 0x20;

pub const ZERO: u8 = 0x30;

pub const MINUS: u8 = 0x2d;

/// The bytes of a string: its UTF-8 encoding, which for ASCII is one byte per character.
pub open spec fn text(s: &str) -> Seq<u8> {
    vstd::utf8::encode_utf8(s@)
}

/// The ASCII decimal digits of `n`, most significant first, without leading zeros.
pub open spec fn decimal(n: nat) -> Seq<u8>
    decreases n,
{
    if n < 10 {
        seq![(ZERO + n) as u8]
    } else {
        decimal(n / 10).push((ZERO + n % 10) as u8)
    }
}

/// The decimal digits of `n`, after a minus sign where `n` is negative.
pub open spec fn signed_decimal(n: int) -> Seq<u8> {
    if n < 0 {
        seq![MINUS] + decimal((-n) as nat)
    } else {
        decimal(n as nat)
    }
}

/// `needle` stands in `hay`, starting at `at`.
pub open spec fn occurs_at(hay: Seq<u8>, needle: Seq<u8>, at: int) -> bool {
    &&& 0 <= at
    &&& at + needle.len() <= hay.len()
    &&& hay.subrange(at, at + needle.len()) == needle
}

/// `needle` stands somewhere in `hay`.
pub open spec fn occurs(hay: Seq<u8>, needle: Seq<u8>) -> bool {
    exists|at: int| occurs_at(hay, needle, at)
}

/// Tab, line feed, form feed, carriage return or space.
pub open spec fn is_ascii_white(b: u8) -> bool {
    b == 0x09 || b == 0x0a || b == 0x0c || b == 0x0d || b == 0x20
}

/// `s` without its leading ASCII white space.
pub open spec fn trimmed_start(s: Seq<u8>) -> Seq<u8>
    decreases s.len(),
{
    if s.len() > 0 && is_ascii_white(s[0]) {
        trimmed_start(s.drop_first())
    } else {
        s
    }
}

/// `s` without its trailing ASCII white space.
pub open spec fn trimmed_end(s: Seq<u8>) -> Seq<u8>
    decreases s.len(),
{
    if s.len() > 0 && is_ascii_white(s.last()) {
        trimmed_end(s.drop_last())
    } else {
        s
    }
}

/// `s` without leading and trailing ASCII white space.
pub open spec fn trimmed(s: Seq<u8>) -> Seq<u8> {
    trimmed_end(trimmed_start(s))
}

/// Appending a concatenation is appending its parts one after the other.
pub broadcast proof fn lemma_append_parts(a: Seq<u8>, b: Seq<u8>, c: Seq<u8>)
    ensures
        #[trigger] (a + (b + c)) == (a + b) + c,
{
    assert(a + (b + c) =~= (a + b) + c);
}

/// Appending nothing changes nothing.
pub broadcast proof fn lemma_append_nothing(a: Seq<u8>)
    ensures
        #[trigger] (a + Seq::<u8>::empty()) == a,
{
    assert(a + Seq::<u8>::empty() =~= a);
}

pub broadcast group group_append {
    lemma_append_parts,
    lemma_append_nothing,
}

/// A number ends with a digit.
pub proof fn lemma_decimal_last(n: nat)
    ensures
        decimal(n).len() > 0,
        ZERO <= decimal(n).last() <= ZERO + 9,
{
}

/// One more piece goes to the end of the pieces before it.
pub proof fn lemma_flatten_next(pieces: spec_fn(int) -> Seq<u8>, n: nat)
    ensures
        Seq::new(n + 1, pieces).flatten() == Seq::new(n, pieces).flatten() + pieces(n as int),
{
    assert(Seq::new(n + 1, pieces) =~= Seq::new(n, pieces).push(pieces(n as int)));
    Seq::new(n, pieces).lemma_flatten_push(pieces(n as int));
}

/// Appends `bytes` to `out`.
pub fn extend(out: &mut Vec<u8>, bytes: &[u8])
    ensures
        final(out)@ == old(out)@ + bytes@,
{
    out.extend_from_slice(bytes);
    assert(out@ =~= old(out)@ + bytes@);
}

/// Appends the bytes of `s` to `out`.
pub fn push_text(out: &mut Vec<u8>, s: &str)
    ensures
        final(out)@ == old(out)@ + text(s),
{
    extend(out, s.as_bytes());
}

/// Appends the decimal digits of `n` to `out`.
pub fn push_decimal(out: &mut Vec<u8>, n: u64)
    ensures
        final(out)@ == old(out)@ + decimal(n as nat),
    decreases n,
{
    if n >= 10 {
        push_decimal(out, n / 10);
    }
    out.push(ZERO + (n % 10) as u8);
    assert(out@ =~= old(out)@ + decimal(n as nat));
}

/// Appends the decimal digits of `n` to `out`, after a minus sign where `n` is negative.
pub fn push_signed_decimal(out: &mut Vec<u8>, n: i32)
    ensures
        final(out)@ == old(out)@ + signed_decimal(n as int),
{
    if n < 0 {
        out.push(MINUS);
        push_decimal(out, (-(n as i64)) as u64);
    } else {
        push_decimal(out, n as u64);
    }
    assert(out@ =~= old(out)@ + signed_decimal(n as int));
}

/// Whether the first bytes of `bytes` are those of `prefix`.
pub fn starts_with(bytes: &[u8], prefix: &[u8]) -> (r: bool)
    ensures
        r == prefix@.is_prefix_of(bytes@),
{
    if prefix.len() > bytes.len() {
        return false;
    }
    let mut i: usize = 0;
    while i < prefix.len()
        invariant
            i <= prefix@.len() <= bytes@.len(),
            forall|j: int| 0 <= j < i ==> prefix@[j] == bytes@[j],
        decreases prefix@.len() - i,
    {
        if prefix[i] != bytes[i] {
            assert(prefix@[i as int] != bytes@.subrange(0, prefix@.len() as int)[i as int]);
            return false;
        }
        i += 1;
    }
    assert(prefix@ =~= bytes@.subrange(0, prefix@.len() as int));
    true
}

/// Whether `byte` is one of `bytes`.
pub fn contains_byte(bytes: &[u8], byte: u8) -> (r: bool)
    ensures
        r == bytes@.contains(byte),
{
    let mut i: usize = 0;
    while i < bytes.len()
        invariant
            i <= bytes@.len(),
            forall|j: int| 0 <= j < i ==> bytes@[j] != byte,
        decreases bytes@.len() - i,
    {
        if bytes[i] == byte {
            return true;
        }
        i += 1;
    }
    false
}

/// Whether `needle` stands somewhere in `hay`.
pub fn contains_bytes(hay: &[u8], needle: &[u8]) -> (r: bool)
    ensures
        r == occurs(hay@, needle@),
{
    if needle.len() > hay.len() {
        return false;
    }
    let last: usize = hay.len() - needle.len();
    let mut at: usize = 0;
    loop
        invariant
            at <= last,
            last + needle@.len() == hay@.len(),
            forall|j: int| 0 <= j < at ==> !occurs_at(hay@, needle@, j),
        decreases last - at,
    {
        let window: &[u8] = vstd::slice::slice_subrange(hay, at, hay.len());
        assert(window@.subrange(0, needle@.len() as int) =~= hay@.subrange(
            at as int,
            at + needle@.len(),
        ));
        if starts_with(window, needle) {
            assert(occurs_at(hay@, needle@, at as int));
            return true;
        }
        assert(!occurs_at(hay@, needle@, at as int));
        if at == last {
            return false;
        }
        at += 1;
    }
}

/// Whether `b` is ASCII white space.
pub fn is_white(b: u8) -> (r: bool)
    ensures
        r == is_ascii_white(b),
{
    b == 0x09 || b == 0x0a || b == 0x0c || b == 0x0d || b == 0x20
}

/// `bytes` without leading and trailing ASCII white space.
pub fn trim_ascii(bytes: &[u8]) -> (r: &[u8])
    ensures
        r@ == trimmed(bytes@),
{
    let mut start: usize = 0;
    assert(bytes@.skip(0) =~= bytes@);
    while start < bytes.len() && is_white(bytes[start])
        invariant
            start <= bytes@.len(),
            trimmed_start(bytes@) == trimmed_start(bytes@.skip(start as int)),
        decreases bytes@.len() - start,
    {
        assert(bytes@.skip(start as int).drop_first() =~= bytes@.skip(start + 1));
        start += 1;
    }
    let ghost rest = bytes@.skip(start as int);
    let mut end: usize = bytes.len();
    assert(bytes@.subrange(start as int, end as int) =~= rest);
    while start < end && is_white(bytes[end - 1])
        invariant
            start <= end <= bytes@.len(),
            trimmed_end(rest) == trimmed_end(bytes@.subrange(start as int, end as int)),
        decreases end - start,
    {
        assert(bytes@.subrange(start as int, end as int).drop_last() =~= bytes@.subrange(
            start as int,
            end - 1,
        ));
        end -= 1;
    }
    vstd::slice::slice_subrange(bytes, start, end)
}

/// A byte that is in neither of two texts is not in both together.
pub broadcast proof fn lemma_lacks_joined(a: Seq<u8>, b: Seq<u8>, byte: u8)
    requires
        !a.contains(byte),
        !b.contains(byte),
    ensures
        !(#[trigger] (a + b).contains(byte)),
{
    if (a + b).contains(byte) {
        let i = choose|i: int| 0 <= i < (a + b).len() && (a + b)[i] == byte;
        if i < a.len() {
            assert(a.contains(a[i]));
        } else {
            assert(b.contains(b[i - a.len()]));
        }
    }
}

/// A number holds nothing but digits.
pub proof fn lemma_decimal_digits(n: nat, byte: u8)
    requires
        byte < ZERO || byte > ZERO + 9,
    ensures
        !decimal(n).contains(byte),
    decreases n,
{
    if n >= 10 {
        lemma_decimal_digits(n / 10, byte);
        let (most, last) = (decimal(n / 10), (ZERO + n % 10) as u8);
        if most.push(last).contains(byte) {
            let i = choose|i: int| 0 <= i < most.push(last).len() && most.push(last)[i] == byte;
            if i < most.len() {
                assert(most.contains(most[i]));
            }
        }
    }
}

/// A decimal digit.
pub open spec fn is_digit(byte: u8) -> bool {
    ZERO <= byte <= ZERO + 9
}

/// The first position from `from` on that holds no digit.
pub open spec fn digits_end(text: Seq<u8>, from: int) -> int
    decreases text.len() - from,
{
    if 0 <= from < text.len() && is_digit(text[from]) {
        digits_end(text, from + 1)
    } else {
        from
    }
}

/// The number that digits stand for.
pub open spec fn number(digits: Seq<u8>) -> int
    decreases digits.len(),
{
    if digits.len() == 0 {
        0
    } else {
        10 * number(digits.drop_last()) + (digits.last() - ZERO)
    }
}

/// Digits end inside the text.
pub proof fn lemma_digits_end(text: Seq<u8>, from: int)
    requires
        0 <= from <= text.len(),
    ensures
        from <= digits_end(text, from) <= text.len(),
    decreases text.len() - from,
{
    if from < text.len() && is_digit(text[from]) {
        lemma_digits_end(text, from + 1);
    }
}

/// Digits end where something else stands.
pub proof fn lemma_digits_end_is(text: Seq<u8>, from: int, end: int)
    requires
        0 <= from <= end < text.len(),
        forall|i: int| from <= i < end ==> is_digit(#[trigger] text[i]),
        !is_digit(text[end]),
    ensures
        digits_end(text, from) == end,
    decreases end - from,
{
    if from < end {
        assert(is_digit(text[from]));
        lemma_digits_end_is(text, from + 1, end);
    }
}

/// The digits of a number stand for the number.
pub proof fn lemma_decimal(n: nat)
    ensures
        number(decimal(n)) == n,
        forall|i: int| 0 <= i < decimal(n).len() ==> is_digit(#[trigger] decimal(n)[i]),
    decreases n,
{
    let digits = decimal(n);
    if n >= 10 {
        lemma_decimal(n / 10);
        assert(digits.drop_last() =~= decimal(n / 10));
        assert forall|i: int| 0 <= i < digits.len() implies is_digit(#[trigger] digits[i]) by {
            if i < digits.len() - 1 {
                assert(digits[i] == decimal(n / 10)[i]);
            }
        }
    } else {
        assert(number(digits.drop_last()) == 0);
    }
}

/// What is left of a text is a part of it. All that is gone before and after it is white space,
/// and it neither starts nor ends with white space.
pub proof fn law_trimmed_is_a_part(s: Seq<u8>) -> (from: int)
    ensures
        0 <= from <= from + trimmed(s).len() <= s.len(),
        trimmed(s) == s.subrange(from, from + trimmed(s).len()),
        forall|i: int|
            0 <= i < from || from + trimmed(s).len() <= i < s.len() ==> is_ascii_white(
                #[trigger] s[i],
            ),
        trimmed(s).len() > 0 ==> !is_ascii_white(trimmed(s)[0]) && !is_ascii_white(
            trimmed(s).last(),
        ),
{
    let start = trimmed_start(s);
    lemma_trimmed_start(s);
    lemma_trimmed_end(start);
    let from = s.len() - start.len();
    let t = trimmed(s);
    assert(t =~= s.subrange(from, from + t.len()));
    assert forall|i: int| 0 <= i < from || from + t.len() <= i < s.len() implies is_ascii_white(
        #[trigger] s[i],
    ) by {
        if i >= from {
            assert(start[i - from] == s[i]);
        }
    }
    from
}

proof fn lemma_trimmed_start(s: Seq<u8>)
    ensures
        trimmed_start(s).len() <= s.len(),
        trimmed_start(s) == s.skip(s.len() - trimmed_start(s).len()),
        forall|i: int|
            0 <= i < s.len() - trimmed_start(s).len() ==> is_ascii_white(#[trigger] s[i]),
        trimmed_start(s).len() > 0 ==> !is_ascii_white(trimmed_start(s)[0]),
    decreases s.len(),
{
    if s.len() > 0 && is_ascii_white(s[0]) {
        let rest = s.drop_first();
        lemma_trimmed_start(rest);
        assert(trimmed_start(s) =~= s.skip(s.len() - trimmed_start(s).len()));
        assert forall|i: int| 0 <= i < s.len() - trimmed_start(s).len() implies is_ascii_white(
            #[trigger] s[i],
        ) by {
            if i > 0 {
                assert(rest[i - 1] == s[i]);
            }
        }
    } else {
        assert(s =~= s.skip(0));
    }
}

proof fn lemma_trimmed_end(s: Seq<u8>)
    ensures
        trimmed_end(s).len() <= s.len(),
        trimmed_end(s) == s.take(trimmed_end(s).len() as int),
        forall|i: int| trimmed_end(s).len() <= i < s.len() ==> is_ascii_white(#[trigger] s[i]),
        trimmed_end(s).len() > 0 ==> !is_ascii_white(trimmed_end(s).last()),
    decreases s.len(),
{
    if s.len() > 0 && is_ascii_white(s.last()) {
        let rest = s.drop_last();
        lemma_trimmed_end(rest);
        assert(trimmed_end(s) =~= s.take(trimmed_end(s).len() as int));
        assert forall|i: int| trimmed_end(s).len() <= i < s.len() implies is_ascii_white(
            #[trigger] s[i],
        ) by {
            if i < rest.len() {
                assert(rest[i] == s[i]);
            }
        }
    } else {
        assert(s =~= s.take(s.len() as int));
    }
}

/// The digits of a number are read as the number, there is at least one, and the first of
/// several is not 0.
pub proof fn law_decimals_are_read(n: nat)
    ensures
        number(decimal(n)) == n,
        decimal(n).len() > 0,
        decimal(n).len() > 1 ==> decimal(n)[0] != 0x30,
        forall|i: int| 0 <= i < decimal(n).len() ==> 0x30 <= #[trigger] decimal(n)[i] <= 0x39,
    decreases n,
{
    lemma_decimal(n);
    if n >= 10 {
        law_decimals_are_read(n / 10);
        assert(decimal(n)[0] == decimal(n / 10)[0]);
        if n / 10 < 10 {
            assert(decimal(n / 10)[0] == 0x30 + n / 10);
        } else {
            lemma_decimal_last(n / 10 / 10);
            assert(decimal(n / 10).len() > 1);
        }
    }
    assert forall|i: int| 0 <= i < decimal(n).len() implies 0x30 <= #[trigger] decimal(n)[i]
        <= 0x39 by {
        assert(is_digit(decimal(n)[i]));
    }
}

/// ASCII white space is the tab, the line feed, the form feed, the carriage return and the space.
pub proof fn law_ascii_white_space(b: u8)
    ensures
        is_ascii_white(b) <==> seq![0x09u8, 0x0a, 0x0c, 0x0d, 0x20].contains(b),
{
    let whites = seq![0x09u8, 0x0a, 0x0c, 0x0d, 0x20];
    assert(whites[0] == 0x09 && whites[1] == 0x0a && whites[2] == 0x0c && whites[3] == 0x0d
        && whites[4] == 0x20);
}

} // verus!
