//! Bytes as text that a terminal accepts.

use vstd::prelude::*;

verus! {

/// The character for a value below 64: letters, digits, `+` and `/`.
pub open spec fn base64_symbol(value: int) -> u8 {
    if value < 26 {
        (0x41 + value) as u8
    } else if value < 52 {
        (0x61 + value - 26) as u8
    } else if value < 62 {
        (0x30 + value - 52) as u8
    } else if value == 62 {
        0x2b
    } else {
        0x2f
    }
}

/// The length of `n` bytes in base64.
pub open spec fn base64_len(n: int) -> int {
    4 * ((n + 2) / 3)
}

/// The three bytes from `at` on as one number, with zeros after the end.
pub open spec fn triple(bytes: Seq<u8>, at: int) -> int {
    let second: int = if at + 1 < bytes.len() { bytes[at + 1] as int } else { 0 };
    let third: int = if at + 2 < bytes.len() { bytes[at + 2] as int } else { 0 };
    0x1_0000 * bytes[at] + 0x100 * second + third
}

/// The standard base64 encoding: four characters for every three bytes, filled up with `=`.
pub open spec fn base64(bytes: Seq<u8>) -> Seq<u8> {
    Seq::new(
        base64_len(bytes.len() as int) as nat,
        |i: int|
            {
                let at = i / 4 * 3;
                let bits = triple(bytes, at);
                if at + i % 4 > bytes.len() {
                    0x3d
                } else if i % 4 == 0 {
                    base64_symbol(bits / 0x4_0000)
                } else if i % 4 == 1 {
                    base64_symbol(bits / 0x1000 % 64)
                } else if i % 4 == 2 {
                    base64_symbol(bits / 0x40 % 64)
                } else {
                    base64_symbol(bits % 64)
                }
            },
    )
}

/// Calls `base64::Engine::encode` on the standard engine.
///
/// Trusted: the result is the base64 encoding of `bytes` with the standard alphabet and
/// padding.
#[verifier::external_body]
pub(crate) fn encode_base64(bytes: &[u8]) -> (r: Vec<u8>)
    requires
        base64_len(bytes@.len() as int) <= usize::MAX,
    ensures
        r@ == base64(bytes@),
{
    base64::Engine::encode(&base64::engine::general_purpose::STANDARD, bytes).into_bytes()
}

/// The value of a base64 character; a `=` stands for zeros.
pub open spec fn symbol_value(symbol: u8) -> int {
    if 0x41 <= symbol <= 0x5a {
        symbol - 0x41
    } else if 0x61 <= symbol <= 0x7a {
        symbol - 0x61 + 26
    } else if 0x30 <= symbol <= 0x39 {
        symbol - 0x30 + 52
    } else if symbol == 0x2b {
        62
    } else if symbol == 0x2f {
        63
    } else {
        0
    }
}

/// How many `=` base64 text ends with.
pub open spec fn padding(text: Seq<u8>) -> int {
    if text.len() >= 2 && text[text.len() - 2] == 0x3d {
        2
    } else if text.len() >= 1 && text.last() == 0x3d {
        1
    } else {
        0
    }
}

/// The four characters from `at` on as one number.
pub open spec fn quadruple(text: Seq<u8>, at: int) -> int {
    0x4_0000 * symbol_value(text[at]) + 0x1000 * symbol_value(text[at + 1]) + 0x40 * symbol_value(
        text[at + 2],
    ) + symbol_value(text[at + 3])
}

/// The bytes of base64 text: three for every four characters, without those of the padding.
pub open spec fn unbase64(text: Seq<u8>) -> Seq<u8> {
    Seq::new(
        (text.len() / 4 * 3 - padding(text)) as nat,
        |i: int|
            {
                let bits = quadruple(text, i / 3 * 4);
                if i % 3 == 0 {
                    (bits / 0x1_0000) as u8
                } else if i % 3 == 1 {
                    (bits / 0x100 % 0x100) as u8
                } else {
                    (bits % 0x100) as u8
                }
            },
    )
}

/// Bytes come back from their base64 text as they were.
pub proof fn law_base64_is_reversible(bytes: Seq<u8>)
    ensures
        unbase64(base64(bytes)) == bytes,
{
    let text = base64(bytes);
    lemma_padding(bytes);
    assert forall|i: int| 0 <= i < bytes.len() implies unbase64(text)[i] == bytes[i] by {
        lemma_quadruple(bytes, i / 3);
        lemma_triple(bytes, i);
    }
    assert(unbase64(text) =~= bytes);
}

/// The bytes of three as one number.
proof fn lemma_triple(bytes: Seq<u8>, i: int)
    requires
        0 <= i < bytes.len(),
    ensures
        bytes[i] == if i % 3 == 0 {
            triple(bytes, 3 * (i / 3)) / 0x1_0000
        } else if i % 3 == 1 {
            triple(bytes, 3 * (i / 3)) / 0x100 % 0x100
        } else {
            triple(bytes, 3 * (i / 3)) % 0x100
        },
{
}

proof fn lemma_symbol(value: int)
    requires
        0 <= value < 64,
    ensures
        symbol_value(base64_symbol(value)) == value,
        base64_symbol(value) != 0x3d,
{
}

/// Four characters stand for the same number as three bytes.
proof fn lemma_quadruple(bytes: Seq<u8>, k: int)
    requires
        0 <= k,
        3 * k < bytes.len(),
    ensures
        quadruple(base64(bytes), 4 * k) == triple(bytes, 3 * k),
{
    let text = base64(bytes);
    let bits = triple(bytes, 3 * k);
    lemma_base64_at(bytes, k);
    lemma_sextets(bits as u32);
    lemma_symbol(bits / 0x4_0000);
    lemma_symbol(bits / 0x1000 % 64);
    lemma_symbol(bits / 0x40 % 64);
    lemma_symbol(bits % 64);
}

/// A number of 24 bits in its four sextets.
proof fn lemma_sextets(bits: u32)
    requires
        bits < 0x100_0000,
    ensures
        0x4_0000 * (bits / 0x4_0000) + 0x1000 * (bits / 0x1000 % 64) + 0x40 * (bits / 0x40 % 64)
            + bits % 64 == bits,
        bits / 0x4_0000 < 64,
{
    let a = bits / 64;
    let b = a / 64;
    let c = b / 64;
    assert(bits / 0x1000 == b);
    assert(bits / 0x4_0000 == c);
}

/// The characters for three bytes.
proof fn lemma_base64_at(bytes: Seq<u8>, k: int)
    requires
        0 <= k,
        3 * k < bytes.len(),
    ensures
        ({
            let text = base64(bytes);
            let bits = triple(bytes, 3 * k);
            &&& 0 <= bits < 0x100_0000
            &&& 4 * k + 3 < text.len()
            &&& text[4 * k] == base64_symbol(bits / 0x4_0000)
            &&& text[4 * k + 1] == base64_symbol(bits / 0x1000 % 64)
            &&& if 3 * k + 2 > bytes.len() {
                bits / 0x40 % 64 == 0 && text[4 * k + 2] == 0x3d
            } else {
                text[4 * k + 2] == base64_symbol(bits / 0x40 % 64)
            }
            &&& if 3 * k + 3 > bytes.len() {
                bits % 64 == 0 && text[4 * k + 3] == 0x3d
            } else {
                text[4 * k + 3] == base64_symbol(bits % 64)
            }
        }),
{
    let at = 4 * k;
    assert(at / 4 == k && (at + 1) / 4 == k && (at + 2) / 4 == k && (at + 3) / 4 == k);
}

proof fn lemma_padding(bytes: Seq<u8>)
    ensures
        base64(bytes).len() / 4 * 3 - padding(base64(bytes)) == bytes.len(),
{
    let text = base64(bytes);
    let n = bytes.len() as int;
    if n > 0 {
        let k = (n - 1) / 3;
        let bits = triple(bytes, 3 * k);
        assert(text.len() == 4 * (k + 1));
        lemma_base64_at(bytes, k);
        lemma_symbol(bits / 0x40 % 64);
        lemma_symbol(bits % 64);
    }
}

/// Base64 text holds letters, digits, `+`, `/` and `=` only: no byte that could end an
/// escape sequence.
pub proof fn law_base64_is_printable(bytes: Seq<u8>, i: int)
    requires
        0 <= i < base64(bytes).len(),
    ensures
        ({
            let symbol = base64(bytes)[i];
            ||| 0x41 <= symbol <= 0x5a
            ||| 0x61 <= symbol <= 0x7a
            ||| 0x30 <= symbol <= 0x39
            ||| symbol == 0x2b
            ||| symbol == 0x2f
            ||| symbol == 0x3d
        }),
{
    let at = i / 4 * 3;
    let bits = triple(bytes, at);
    if at + i % 4 <= bytes.len() {
        assert(at < bytes.len());
        assert(0 <= bits < 0x100_0000);
    }
}

} // verus!
