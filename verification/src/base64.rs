//! Base64 with the standard alphabet, without padding.

use vstd::prelude::*;
use vstd::string::StringSliceAdditionalSpecFns;

use crate::globals::{ASCII_0, ASCII_9, ASCII_LOWER_A, ASCII_UPPER_A};
use crate::helper_functions::{ascii_str, ascii_text, is_ascii};

verus! {

pub const ASCII_PLUS: u8 = 0x2B;

pub const ASCII_SLASH: u8 = 0x2F;

pub const ASCII_LOWER_Z: u8 = 0x7A;

pub const ASCII_UPPER_Z: u8 = 0x5A;

/// The character of a number below 64.
pub open spec fn symbol(value: int) -> u8 {
    if value < 26 {
        (ASCII_UPPER_A + value) as u8
    } else if value < 52 {
        (ASCII_LOWER_A + value - 26) as u8
    } else if value < 62 {
        (ASCII_0 + value - 52) as u8
    } else if value == 62 {
        ASCII_PLUS
    } else {
        ASCII_SLASH
    }
}

/// The number that a character of the alphabet stands for.
pub open spec fn symbol_value(c: u8) -> Option<int> {
    if ASCII_UPPER_A <= c <= ASCII_UPPER_Z {
        Some(c - ASCII_UPPER_A)
    } else if ASCII_LOWER_A <= c <= ASCII_LOWER_Z {
        Some(c - ASCII_LOWER_A + 26)
    } else if ASCII_0 <= c <= ASCII_9 {
        Some(c - ASCII_0 + 52)
    } else if c == ASCII_PLUS {
        Some(62)
    } else if c == ASCII_SLASH {
        Some(63)
    } else {
        None
    }
}

/// The byte at `i`, or zero behind the end.
pub open spec fn byte_at(bytes: Seq<u8>, i: int) -> int {
    if i < bytes.len() {
        bytes[i] as int
    } else {
        0
    }
}

/// Three bytes as four characters.
pub open spec fn group_text(bytes: Seq<u8>) -> Seq<u8> {
    let (a, b, c) = (byte_at(bytes, 0), byte_at(bytes, 1), byte_at(bytes, 2));
    seq![
        symbol(a / 4),
        symbol((a % 4) * 16 + b / 16),
        symbol((b % 16) * 4 + c / 64),
        symbol(c % 64),
    ]
}

/// Bytes as text: four characters for each three bytes, and for one or two
/// bytes at the end no more characters than it takes.
pub open spec fn base64_text(bytes: Seq<u8>) -> Seq<u8>
    decreases bytes.len(),
{
    if bytes.len() == 0 {
        seq![]
    } else if bytes.len() < 3 {
        group_text(bytes).take(bytes.len() as int + 1)
    } else {
        group_text(bytes) + base64_text(bytes.skip(3))
    }
}

/// What the character at `i` stands for, or zero behind the end.
pub open spec fn value_at(text: Seq<u8>, i: int) -> Option<int> {
    if i < text.len() {
        symbol_value(text[i])
    } else {
        Some(0)
    }
}

/// Four characters as three bytes.
pub open spec fn group_bytes(text: Seq<u8>) -> Option<Seq<u8>> {
    match (value_at(text, 0), value_at(text, 1), value_at(text, 2), value_at(text, 3)) {
        (Some(a), Some(b), Some(c), Some(d)) => Some(
            seq![
                (a * 4 + b / 16) as u8,
                ((b % 16) * 16 + c / 4) as u8,
                ((c % 4) * 64 + d) as u8,
            ],
        ),
        _ => None,
    }
}

/// Text as bytes. There are none for text with other characters in it, nor
/// for text that ends in a single character of a group.
pub open spec fn base64_bytes(text: Seq<u8>) -> Option<Seq<u8>>
    decreases text.len(),
{
    if text.len() == 0 {
        Some(seq![])
    } else if text.len() == 1 {
        None
    } else if text.len() < 4 {
        match group_bytes(text) {
            Some(group) => Some(group.take(text.len() - 1)),
            None => None,
        }
    } else {
        match (group_bytes(text), base64_bytes(text.skip(4))) {
            (Some(group), Some(rest)) => Some(group + rest),
            _ => None,
        }
    }
}

/// Decoding gives back what was encoded.
pub proof fn base64_round_trip(bytes: Seq<u8>)
    ensures
        base64_bytes(base64_text(bytes)) == Some(bytes),
    decreases bytes.len(),
{
    let text = base64_text(bytes);
    if bytes.len() > 0 {
        lemma_group(bytes);
        let group = group_text(bytes);
        let whole = group_bytes(group)->Some_0;
        if bytes.len() < 3 {
            assert(text =~= group.take(bytes.len() as int + 1));
            assert(group_bytes(text) is Some);
            assert(group_bytes(text)->Some_0.take(bytes.len() as int) =~= bytes);
        } else {
            base64_round_trip(bytes.skip(3));
            assert(text.skip(4) =~= base64_text(bytes.skip(3)));
            assert(group_bytes(text) == group_bytes(group));
            assert(whole + bytes.skip(3) =~= bytes);
        }
    }
}

/// The characters of a group stand for its bytes.
proof fn lemma_group(bytes: Seq<u8>)
    requires
        bytes.len() > 0,
    ensures
        group_text(bytes).len() == 4,
        forall|i: int| 0 <= i < 4 ==> #[trigger] symbol_value(group_text(bytes)[i]) is Some,
        group_bytes(group_text(bytes)) == Some(
            seq![byte_at(bytes, 0) as u8, byte_at(bytes, 1) as u8, byte_at(bytes, 2) as u8],
        ),
{
    let (a, b, c) = (byte_at(bytes, 0), byte_at(bytes, 1), byte_at(bytes, 2));
    lemma_symbol(a / 4);
    lemma_symbol((a % 4) * 16 + b / 16);
    lemma_symbol((b % 16) * 4 + c / 64);
    lemma_symbol(c % 64);
    assert(group_bytes(group_text(bytes))->Some_0 =~= seq![a as u8, b as u8, c as u8]);
}

proof fn lemma_symbol(value: int)
    requires
        0 <= value < 64,
    ensures
        symbol_value(symbol(value)) == Some(value),
        symbol(value) < 128,
{
}

/// Encoded text holds characters of the alphabet alone.
pub proof fn base64_alphabet(bytes: Seq<u8>)
    ensures
        is_ascii(base64_text(bytes)),
        forall|i: int|
            0 <= i < base64_text(bytes).len() ==> symbol_value(#[trigger] base64_text(bytes)[i])
                is Some,
    decreases bytes.len(),
{
    if bytes.len() > 0 {
        lemma_group(bytes);
        if bytes.len() >= 3 {
            base64_alphabet(bytes.skip(3));
        }
        let text = base64_text(bytes);
        assert forall|i: int| 0 <= i < text.len() implies symbol_value(#[trigger] text[i]) is Some
            && text[i] < 128 by {
            if i < 4 {
                assert(text[i] == group_text(bytes)[i]);
            } else {
                assert(text[i] == base64_text(bytes.skip(3))[i - 4]);
                assert(symbol_value(base64_text(bytes.skip(3))[i - 4]) is Some);
            }
        }
    }
}

/// The character of a number below 64.
fn to_symbol(value: u8) -> (r: u8)
    requires
        value < 64,
    ensures
        r == symbol(value as int),
{
    if value < 26 {
        ASCII_UPPER_A + value
    } else if value < 52 {
        ASCII_LOWER_A + (value - 26)
    } else if value < 62 {
        ASCII_0 + (value - 52)
    } else if value == 62 {
        ASCII_PLUS
    } else {
        ASCII_SLASH
    }
}

/// The number that a character stands for.
fn from_symbol(c: u8) -> (r: Option<u8>)
    ensures
        match r {
            Some(value) => value < 64 && symbol_value(c) == Some(value as int),
            None => symbol_value(c) is None,
        },
{
    if ASCII_UPPER_A <= c && c <= ASCII_UPPER_Z {
        Some(c - ASCII_UPPER_A)
    } else if ASCII_LOWER_A <= c && c <= ASCII_LOWER_Z {
        Some(c - ASCII_LOWER_A + 26)
    } else if ASCII_0 <= c && c <= ASCII_9 {
        Some(c - ASCII_0 + 52)
    } else if c == ASCII_PLUS {
        Some(62)
    } else if c == ASCII_SLASH {
        Some(63)
    } else {
        None
    }
}

/// Encodes bytes.
pub fn base64_encode(input: &[u8]) -> (r: String)
    ensures
        r@ == ascii_text(base64_text(input@)),
{
    let mut text: Vec<u8> = Vec::new();
    let n: usize = input.len();
    let mut i: usize = 0;
    assert(input@.skip(0) =~= input@);
    assert(text@ + base64_text(input@) =~= base64_text(input@));
    while i < n
        invariant
            i <= n == input@.len(),
            base64_text(input@) == text@ + base64_text(input@.skip(i as int)),
        decreases n - i,
    {
        let ghost rest = input@.skip(i as int);
        let ghost before = text@;
        let a: u8 = input[i];
        let b: u8 = if n - i > 1 {
            input[i + 1]
        } else {
            0
        };
        let c: u8 = if n - i > 2 {
            input[i + 2]
        } else {
            0
        };
        assert(a == byte_at(rest, 0) && b == byte_at(rest, 1) && c == byte_at(rest, 2));
        text.push(to_symbol(a / 4));
        text.push(to_symbol((a % 4) * 16 + b / 16));
        if n - i == 1 {
            assert(text@ =~= before + base64_text(rest));
            assert(input@.skip(n as int) =~= seq![]);
            assert(text@ + base64_text(seq![]) =~= text@);
            i = n;
        } else if n - i == 2 {
            text.push(to_symbol((b % 16) * 4 + c / 64));
            assert(text@ =~= before + base64_text(rest));
            assert(input@.skip(n as int) =~= seq![]);
            assert(text@ + base64_text(seq![]) =~= text@);
            i = n;
        } else {
            text.push(to_symbol((b % 16) * 4 + c / 64));
            text.push(to_symbol(c % 64));
            assert(rest.skip(3) =~= input@.skip(i + 3));
            assert(text@ =~= before + group_text(rest));
            assert(before + (group_text(rest) + base64_text(rest.skip(3))) =~= text@ + base64_text(
                rest.skip(3),
            ));
            i = i + 3;
        }
    }
    proof {
        assert(input@.skip(n as int) =~= seq![]);
        assert(text@ =~= base64_text(input@));
        base64_alphabet(input@);
    }
    ascii_str(text.as_slice()).to_string()
}

/// What the character at `i` stands for, or zero behind the end.
fn decode_at(text: &[u8], i: usize) -> (r: Option<u8>)
    ensures
        match r {
            Some(value) => value < 64 && value_at(text@, i as int) == Some(value as int),
            None => value_at(text@, i as int) is None,
        },
{
    if i < text.len() {
        from_symbol(text[i])
    } else {
        Some(0)
    }
}

/// Decodes text.
pub fn base64_decode_bytes(text: &[u8]) -> (r: Option<Vec<u8>>)
    ensures
        match r {
            Some(bytes) => base64_bytes(text@) == Some(bytes@),
            None => base64_bytes(text@) is None,
        },
{
    let n: usize = text.len();
    let mut bytes: Vec<u8> = Vec::new();
    let mut i: usize = 0;
    assert(text@.skip(0) =~= text@);
    proof {
        if let Some(all) = base64_bytes(text@) {
            assert(bytes@ + all =~= all);
        }
    }
    while i < n
        invariant
            i <= n == text@.len(),
            match base64_bytes(text@.skip(i as int)) {
                Some(rest) => base64_bytes(text@) == Some(bytes@ + rest),
                None => base64_bytes(text@) is None,
            },
        decreases n - i,
    {
        let ghost rest = text@.skip(i as int);
        let ghost before = bytes@;
        if n - i == 1 {
            return None;
        }
        let piece: &[u8] = vstd::slice::slice_subrange(text, i, n);
        assert(piece@ =~= rest);
        match (decode_at(piece, 0), decode_at(piece, 1), decode_at(piece, 2), decode_at(piece, 3)) {
            (Some(a), Some(b), Some(c), Some(d)) => {
                bytes.push(a * 4 + b / 16);
                if n - i == 2 {
                    assert(bytes@ =~= before + group_bytes(rest)->Some_0.take(1));
                    i = n;
                } else if n - i == 3 {
                    bytes.push((b % 16) * 16 + c / 4);
                    assert(bytes@ =~= before + group_bytes(rest)->Some_0.take(2));
                    i = n;
                } else {
                    bytes.push((b % 16) * 16 + c / 4);
                    bytes.push((c % 4) * 64 + d);
                    proof {
                        assert(bytes@ =~= before + group_bytes(rest)->Some_0);
                        assert(rest.skip(4) =~= text@.skip(i + 4));
                        if let Some(tail) = base64_bytes(rest.skip(4)) {
                            assert(before + (group_bytes(rest)->Some_0 + tail) =~= bytes@ + tail);
                        }
                    }
                    i = i + 4;
                }
                proof {
                    if i == n {
                        assert(text@.skip(n as int) =~= seq![]);
                        assert(bytes@ + seq![] =~= bytes@);
                    }
                }
            },
            _ => {
                return None;
            },
        }
    }
    proof {
        assert(text@.skip(n as int) =~= seq![]);
        assert(bytes@ + seq![] =~= bytes@);
    }
    Some(bytes)
}

/// Decodes text.
pub fn base64_decode(text: &str) -> (r: Option<Vec<u8>>)
    ensures
        match r {
            Some(bytes) => base64_bytes(text.spec_bytes()) == Some(bytes@),
            None => base64_bytes(text.spec_bytes()) is None,
        },
{
    base64_decode_bytes(text.as_bytes())
}

/// The alphabet: capital letters, small letters, figures, plus and slash. No
/// other character is read.
pub proof fn base64_symbols(value: int, c: u8)
    requires
        0 <= value < 64,
    ensures
        value < 26 ==> symbol(value) == 0x41 + value,
        26 <= value < 52 ==> symbol(value) == 0x61 + (value - 26),
        52 <= value < 62 ==> symbol(value) == 0x30 + (value - 52),
        value == 62 ==> symbol(value) == 0x2B,
        value == 63 ==> symbol(value) == 0x2F,
        symbol_value(symbol(value)) == Some(value),
        symbol_value(c) is Some <==> 0x41 <= c <= 0x5A || 0x61 <= c <= 0x7A || 0x30 <= c <= 0x39
            || c == 0x2B || c == 0x2F,
        symbol_value(c) matches Some(v) ==> 0 <= v < 64 && symbol(v) == c,
{
}

/// Three bytes and the four characters for them are one number of 24 bits, in
/// digits to the base 256 and to the base 64.
pub proof fn groups_are_numbers(a: u8, b: u8, c: u8)
    ensures
        ({
            let text = base64_text(seq![a, b, c]);
            &&& text.len() == 4
            &&& 0x10000 * a + 0x100 * b + c == 0x40000 * symbol_value(text[0])->0 + 0x1000
                * symbol_value(text[1])->0 + 0x40 * symbol_value(text[2])->0 + symbol_value(
                text[3],
            )->0
        }),
{
    reveal_with_fuel(base64_text, 2);
    let bytes = seq![a, b, c];
    assert(bytes.skip(3) =~= seq![]);
    assert(base64_text(bytes) =~= group_text(bytes));
    lemma_symbol(a as int / 4);
    lemma_symbol((a as int % 4) * 16 + b as int / 16);
    lemma_symbol((b as int % 16) * 4 + c as int / 64);
    lemma_symbol(c as int % 64);
}

/// One or two bytes at the end are written as if zeros followed, without the
/// characters for those.
pub proof fn short_groups(a: u8, b: u8)
    ensures
        base64_text(seq![a]) == base64_text(seq![a, 0u8, 0u8]).take(2),
        base64_text(seq![a, b]) == base64_text(seq![a, b, 0u8]).take(3),
{
    reveal_with_fuel(base64_text, 2);
    assert(seq![a, 0u8, 0u8].skip(3) =~= seq![]);
    assert(seq![a, b, 0u8].skip(3) =~= seq![]);
    assert(base64_text(seq![a, 0u8, 0u8]) =~= group_text(seq![a, 0u8, 0u8]));
    assert(base64_text(seq![a, b, 0u8]) =~= group_text(seq![a, b, 0u8]));
    assert(base64_text(seq![a]) =~= base64_text(seq![a, 0u8, 0u8]).take(2));
    assert(base64_text(seq![a, b]) =~= base64_text(seq![a, b, 0u8]).take(3));
}

/// Groups are written one after the other, each of them alike. As many
/// characters are written as it takes to hold the bits.
pub proof fn groups_are_written_in_turn(first: Seq<u8>, rest: Seq<u8>)
    requires
        first.len() % 3 == 0,
    ensures
        base64_text(first + rest) == base64_text(first) + base64_text(rest),
        base64_text(rest).len() == (8 * rest.len() + 5) / 6,
    decreases first.len() + rest.len(),
{
    lemma_text_len(rest);
    if first.len() == 0 {
        assert(first + rest =~= rest);
        assert(base64_text(first) + base64_text(rest) =~= base64_text(rest));
    } else {
        groups_are_written_in_turn(first.skip(3), rest);
        assert((first + rest).skip(3) =~= first.skip(3) + rest);
        assert(group_text(first + rest) =~= group_text(first));
        assert(base64_text(first + rest) =~= base64_text(first) + base64_text(rest));
    }
}

proof fn lemma_text_len(bytes: Seq<u8>)
    ensures
        base64_text(bytes).len() == (8 * bytes.len() + 5) / 6,
    decreases bytes.len(),
{
    if bytes.len() >= 3 {
        lemma_text_len(bytes.skip(3));
    }
}

/// Four characters are read as the number of 24 bits that they are, and groups
/// are read one after the other.
pub proof fn groups_are_read_in_turn(a: u8, b: u8, c: u8, d: u8, rest: Seq<u8>)
    requires
        symbol_value(a) is Some,
        symbol_value(b) is Some,
        symbol_value(c) is Some,
        symbol_value(d) is Some,
    ensures
        base64_bytes(seq![a, b, c, d] + rest) is Some <==> base64_bytes(rest) is Some,
        base64_bytes(rest) is Some ==> {
            let bytes = base64_bytes(seq![a, b, c, d] + rest)->0;
            &&& bytes.len() == 3 + base64_bytes(rest)->0.len()
            &&& bytes.skip(3) == base64_bytes(rest)->0
            &&& 0x10000 * bytes[0] + 0x100 * bytes[1] + bytes[2] == 0x40000 * symbol_value(a)->0
                + 0x1000 * symbol_value(b)->0 + 0x40 * symbol_value(c)->0 + symbol_value(d)->0
        },
{
    let text = seq![a, b, c, d] + rest;
    assert(text.skip(4) =~= rest);
    if base64_bytes(rest) is Some {
        let bytes = base64_bytes(text)->0;
        assert(bytes.skip(3) =~= base64_bytes(rest)->0);
    }
}

/// Two or three characters at the end are read as if zeros followed, without the
/// bytes for those. A single one is refused.
pub proof fn short_groups_are_read(a: u8, b: u8, c: u8)
    requires
        symbol_value(a) is Some,
        symbol_value(b) is Some,
        symbol_value(c) is Some,
    ensures
        base64_bytes(seq![a]) is None,
        base64_bytes(seq![a, b]) == Some(base64_bytes(seq![a, b, 0x41u8, 0x41u8])->0.take(1)),
        base64_bytes(seq![a, b, c]) == Some(base64_bytes(seq![a, b, c, 0x41u8])->0.take(2)),
        base64_bytes(seq![a, b, 0x41u8, 0x41u8]) is Some,
        base64_bytes(seq![a, b, c, 0x41u8]) is Some,
{
    reveal_with_fuel(base64_bytes, 2);
    assert(seq![a, b, 0x41u8, 0x41u8].skip(4) =~= seq![]);
    assert(seq![a, b, c, 0x41u8].skip(4) =~= seq![]);
    let two = base64_bytes(seq![a, b, 0x41u8, 0x41u8])->0;
    let three = base64_bytes(seq![a, b, c, 0x41u8])->0;
    assert(base64_bytes(seq![a, b])->0 =~= two.take(1));
    assert(base64_bytes(seq![a, b, c])->0 =~= three.take(2));
}

/// Text with another character in it is refused, wherever that stands.
pub proof fn other_characters_are_refused(text: Seq<u8>, i: int)
    requires
        0 <= i < text.len(),
        symbol_value(text[i]) is None,
    ensures
        base64_bytes(text) is None,
    decreases text.len(),
{
    if text.len() >= 4 && i >= 4 {
        assert(text.skip(4)[i - 4] == text[i]);
        other_characters_are_refused(text.skip(4), i - 4);
    } else if text.len() > 1 {
        assert(i == 0 || i == 1 || i == 2 || i == 3);
        assert(value_at(text, i) is None);
    }
}

} // verus!
