//! Text forms of numbers and bytes, and task identifiers in one word.

use vstd::arithmetic::power2::pow2;
use vstd::prelude::*;
use vstd::string::{StringExecFns, StringSliceAdditionalSpecFns};
use vstd::utf8::{encode_utf8, valid_utf8};

use crate::globals::{
    ASCII_0, ASCII_9, ASCII_LOWER_A, ASCII_LOWER_F, ASCII_LOWER_X, ASCII_UPPER_A, ASCII_UPPER_F,
    ASCII_UPPER_X, HEX_CHARS_UPPER,
};

verus! {

/// The error of `core::str::from_utf8`.
#[verifier::external_type_specification]
#[verifier::external_body]
pub struct ExUtf8Error(core::str::Utf8Error);

/// `core::str::from_utf8` hands out the string that has exactly these bytes,
/// if the bytes are valid UTF-8, and an error if they are not.
pub assume_specification[ core::str::from_utf8 ](v: &[u8]) -> (r: Result<
    &str,
    core::str::Utf8Error,
>)
    ensures
        match r {
            Ok(s) => valid_utf8(v@) && s.spec_bytes() == v@,
            Err(_) => !valid_utf8(v@),
        },
;

/// The characters that ASCII bytes stand for.
pub open spec fn ascii_text(bytes: Seq<u8>) -> Seq<char> {
    Seq::new(bytes.len(), |i: int| bytes[i] as char)
}

/// All bytes are ASCII.
pub open spec fn is_ascii(bytes: Seq<u8>) -> bool {
    forall|i: int| 0 <= i < bytes.len() ==> bytes[i] < 128
}

/// ASCII bytes encode the characters they stand for, and nothing else does.
pub proof fn lemma_ascii_text(bytes: Seq<u8>)
    requires
        is_ascii(bytes),
    ensures
        valid_utf8(bytes),
        encode_utf8(ascii_text(bytes)) == bytes,
        forall|chars: Seq<char>| #[trigger] encode_utf8(chars) == bytes ==> chars == ascii_text(
            bytes,
        ),
{
    let text = ascii_text(bytes);
    assert(vstd::utf8::is_ascii_chars(text)) by {
        assert forall|i: int| 0 <= i < text.len() implies (0 <= #[trigger] text[i] as u32 && (
        text[i] as u32) < 128) by {
            assert(bytes[i] < 128);
        }
    }
    vstd::utf8::is_ascii_chars_encode_utf8(text);
    assert(encode_utf8(text) =~= bytes);
    vstd::utf8::encode_utf8_valid_utf8(text);
    assert forall|chars: Seq<char>| #[trigger] encode_utf8(chars) == bytes implies chars == text by {
        vstd::utf8::encode_utf8_decode_utf8(chars);
        vstd::utf8::encode_utf8_decode_utf8(text);
    }
}

/// Views ASCII bytes as a string.
pub fn ascii_str(bytes: &[u8]) -> (r: &str)
    requires
        is_ascii(bytes@),
    ensures
        r@ == ascii_text(bytes@),
{
    proof {
        lemma_ascii_text(bytes@);
    }
    match core::str::from_utf8(bytes) {
        Ok(s) => s,
        Err(_) => "",
    }
}

/// The upper-case hexadecimal digit of a number below sixteen.
pub open spec fn hex_digit(nibble: u8) -> u8 {
    if nibble < 10 {
        (ASCII_0 + nibble) as u8
    } else {
        (ASCII_UPPER_A + nibble - 10) as u8
    }
}

/// The table of digits holds the digits.
pub proof fn lemma_hex_table()
    ensures
        HEX_CHARS_UPPER@.len() == 16,
        forall|n: int| 0 <= n < 16 ==> #[trigger] HEX_CHARS_UPPER@[n] == hex_digit(n as u8),
{
    assert forall|n: int| 0 <= n < 16 implies #[trigger] HEX_CHARS_UPPER@[n] == hex_digit(
        n as u8,
    ) by {
        if n == 0 || n == 1 || n == 2 || n == 3 || n == 4 || n == 5 || n == 6 || n == 7 {
        } else if n == 8 || n == 9 || n == 10 || n == 11 || n == 12 || n == 13 || n == 14 {
        }
    }
}

/// The text `0x` and then the digits of a number, `count` of them, the most
/// significant first.
pub open spec fn hex_form(value: u64, count: nat) -> Seq<u8> {
    Seq::new(
        count + 2,
        |i: int|
            if i == 0 {
                ASCII_0
            } else if i == 1 {
                ASCII_LOWER_X
            } else {
                hex_digit(((value >> (4 * (count + 1 - i)) as u64) & 0xF) as u8)
            },
    )
}

/// Converts a number to `0x` and sixteen digits.
pub fn u64_to_hex_bytes(value: u64) -> (r: [u8; 18])
    ensures
        r@ == hex_form(value, 16),
{
    let mut buffer: [u8; 18] = [ASCII_0;18];
    let mut i: usize = 17;
    let mut rest: u64 = value;
    proof {
        lemma_hex_table();
        assert(value == value >> 0u64) by (bit_vector);
    }
    while i > 1
        invariant
            1 <= i <= 17,
            rest == value >> (4 * (17 - i)) as u64,
            HEX_CHARS_UPPER@.len() == 16,
            forall|n: int| 0 <= n < 16 ==> #[trigger] HEX_CHARS_UPPER@[n] == hex_digit(n as u8),
            forall|j: int| i < j < 18 ==> buffer@[j] == hex_form(value, 16)[j],
        decreases i,
    {
        proof {
            lemma_nibbles(value, (4 * (17 - i)) as u64);
        }
        let nibble: u64 = rest & 0xF;
        buffer[i] = HEX_CHARS_UPPER[nibble as usize];
        rest = rest >> 4;
        i = i - 1;
    }
    buffer[0] = ASCII_0;
    buffer[1] = ASCII_LOWER_X;
    assert(buffer@ =~= hex_form(value, 16));
    buffer
}

/// The lowest nibble is below sixteen, and shifts add up.
proof fn lemma_nibbles(value: u64, shift: u64)
    requires
        shift <= 60,
    ensures
        (value >> shift) & 0xF < 16,
        (value >> shift) >> 4 == value >> (shift + 4) as u64,
{
    assert((value >> shift) & 0xF < 16 && (value >> shift) >> 4 == value >> (shift + 4) as u64)
        by (bit_vector)
        requires
            shift <= 60,
    ;
}

/// The two halves of a byte are its digits to the base sixteen.
proof fn lemma_byte_nibbles(byte: u8)
    ensures
        byte >> 4 == byte / 16,
        byte & 0xF == byte % 16,
{
    assert(byte >> 4 == byte / 16 && byte & 0xF == byte % 16) by (bit_vector);
}

/// Converts a number to `0x` and eight digits.
pub fn u32_to_hex_bytes(value: u32) -> (r: [u8; 10])
    ensures
        r@ == hex_form(value as u64, 8),
{
    let wide = u64_to_hex_bytes(value as u64);
    let mut buffer: [u8; 10] = [ASCII_0;10];
    let mut i: usize = 2;
    while i < 10
        invariant
            2 <= i <= 10,
            wide@ == hex_form(value as u64, 16),
            forall|j: int| 2 <= j < i ==> buffer@[j] == hex_form(value as u64, 8)[j],
        decreases 10 - i,
    {
        buffer[i] = wide[i + 8];
        i = i + 1;
    }
    buffer[0] = ASCII_0;
    buffer[1] = ASCII_LOWER_X;
    assert(buffer@ =~= hex_form(value as u64, 8));
    buffer
}

/// The decimal digits of a number, as ASCII bytes.
pub open spec fn dec_form(value: nat) -> Seq<u8>
    decreases value,
{
    if value < 10 {
        seq![(ASCII_0 + value) as u8]
    } else {
        dec_form(value / 10).push((ASCII_0 + value % 10) as u8)
    }
}

/// The number that decimal digits stand for.
pub open spec fn dec_value(digits: Seq<u8>) -> nat
    decreases digits.len(),
{
    if digits.len() == 0 {
        0
    } else {
        dec_value(digits.drop_last()) * 10 + (digits.last() - ASCII_0) as nat
    }
}

/// The decimal form of a number stands for that number, is ASCII, and has no
/// leading zero unless the number is zero.
pub proof fn dec_form_round_trip(value: nat)
    ensures
        dec_value(dec_form(value)) == value,
        is_ascii(dec_form(value)),
        dec_form(value).len() > 0,
        value > 0 ==> dec_form(value)[0] != ASCII_0,
    decreases value,
{
    let digits = dec_form(value);
    if value < 10 {
        assert(digits.drop_last() =~= seq![]);
        reveal_with_fuel(dec_value, 2);
    } else {
        dec_form_round_trip(value / 10);
        assert(digits.drop_last() =~= dec_form(value / 10));
        assert(digits.last() == ASCII_0 + value % 10);
    }
}

/// Ten to the power of `n`.
pub open spec fn pow10(n: nat) -> nat
    decreases n,
{
    if n == 0 {
        1
    } else {
        10 * pow10((n - 1) as nat)
    }
}

/// Puts the decimal digits of a number at the end of `buffer`, and tells where
/// they begin.
fn put_digits<const N: usize>(value: u64, buffer: &mut [u8; N]) -> (start: usize)
    requires
        value < pow10(N as nat),
        N > 0,
    ensures
        start < N,
        final(buffer)@.subrange(start as int, N as int) == dec_form(value as nat),
        final(buffer)@.take(start as int) == old(buffer)@.take(start as int),
{
    if value == 0 {
        buffer[N - 1] = ASCII_0;
        assert(buffer@.subrange(N - 1, N as int) =~= seq![ASCII_0]);
        assert(buffer@.take(N - 1) =~= old(buffer)@.take(N - 1));
        return N - 1;
    }
    let mut rest: u64 = value;
    let mut i: usize = N;
    assert(dec_form(value as nat) =~= dec_form(rest as nat) + buffer@.subrange(
        i as int,
        N as int,
    ));
    while rest > 0
        invariant
            i <= N,
            N > 0,
            rest < pow10(i as nat),
            i == N ==> rest > 0,
            buffer@.take(i as int) == old(buffer)@.take(i as int),
            dec_form(value as nat) == if rest > 0 {
                dec_form(rest as nat) + buffer@.subrange(i as int, N as int)
            } else {
                buffer@.subrange(i as int, N as int)
            },
        decreases rest,
    {
        let ghost tail = buffer@.subrange(i as int, N as int);
        i = i - 1;
        let digit: u8 = (rest % 10) as u8;
        let ghost before = buffer@;
        buffer[i] = ASCII_0 + digit;
        proof {
            assert(buffer@.take(i as int) =~= before.take(i + 1).take(i as int));
            assert(old(buffer)@.take(i as int) =~= old(buffer)@.take(i + 1).take(i as int));
            let next = buffer@.subrange(i as int, N as int);
            assert(next =~= seq![(ASCII_0 + rest % 10) as u8] + tail);
            if rest < 10 {
                assert(dec_form(rest as nat) + tail =~= next);
            } else {
                assert(dec_form(rest as nat) + tail =~= dec_form((rest / 10) as nat) + next);
            }
        }
        rest = rest / 10;
    }
    i
}

/// Converts a number to decimal digits, which are put at the end of `buffer`.
pub fn u32_to_dec_str(value: u32, buffer: &mut [u8; 10]) -> (r: &str)
    ensures
        r@ == ascii_text(dec_form(value as nat)),
        dec_form(value as nat).len() <= 10,
        final(buffer)@ == old(buffer)@.take(10 - dec_form(value as nat).len()) + dec_form(
            value as nat,
        ),
{
    proof {
        reveal_with_fuel(pow10, 11);
        dec_form_round_trip(value as nat);
    }
    let start: usize = put_digits(value as u64, buffer);
    assert(buffer@ =~= buffer@.take(start as int) + buffer@.subrange(start as int, 10));
    ascii_str(vstd::slice::slice_subrange(buffer.as_slice(), start, 10))
}

/// Converts a number to decimal digits, which are put at the end of `buffer`.
pub fn u64_to_dec_str(value: u64, buffer: &mut [u8; 20]) -> (r: &str)
    ensures
        r@ == ascii_text(dec_form(value as nat)),
        dec_form(value as nat).len() <= 20,
        final(buffer)@ == old(buffer)@.take(20 - dec_form(value as nat).len()) + dec_form(
            value as nat,
        ),
{
    proof {
        reveal_with_fuel(pow10, 21);
        dec_form_round_trip(value as nat);
    }
    let start: usize = put_digits(value, buffer);
    assert(buffer@ =~= buffer@.take(start as int) + buffer@.subrange(start as int, 20));
    ascii_str(vstd::slice::slice_subrange(buffer.as_slice(), start, 20))
}

/// A task by its slot in the task table, and the generation of that slot.
#[derive(Debug, Clone, Copy, PartialEq, Eq, Structural)]
pub struct TaskId {
    pub slot_index: u64,
    pub slot_generation: u8,
}

/// The generation in the highest eight bits, the slot in the others.
pub open spec fn compressed(task_id: TaskId) -> u64 {
    task_id.slot_index | (task_id.slot_generation as u64) << 56
}

/// The task that the highest eight bits and the others stand for.
pub open spec fn expanded(encoded: u64) -> TaskId {
    TaskId { slot_index: encoded & 0x00FF_FFFF_FFFF_FFFF, slot_generation: (encoded >> 56) as u8 }
}

/// Encodes a task identifier in one word.
pub fn compress_task_id(task_id: TaskId) -> (r: u64)
    ensures
        r == compressed(task_id),
{
    task_id.slot_index | (task_id.slot_generation as u64) << 56
}

/// Decodes a task identifier from one word.
pub fn expand_task_id(encoded_task_id: u64) -> (r: TaskId)
    ensures
        r == expanded(encoded_task_id),
{
    let slot_generation: u8 = (encoded_task_id >> 56) as u8;
    let slot_index: u64 = (encoded_task_id << 8) >> 8;
    assert((encoded_task_id << 8) >> 8 == encoded_task_id & 0x00FF_FFFF_FFFF_FFFF) by (bit_vector);
    TaskId { slot_index, slot_generation }
}

/// Expanding undoes compressing, for every slot that leaves the highest eight
/// bits free, and compressing undoes expanding.
pub proof fn task_id_round_trip(task_id: TaskId, encoded: u64)
    requires
        task_id.slot_index < 0x0100_0000_0000_0000,
    ensures
        expanded(compressed(task_id)) == task_id,
        compressed(expanded(encoded)) == encoded,
{
    let slot = task_id.slot_index;
    let generation = task_id.slot_generation;
    assert((slot | (generation as u64) << 56) & 0x00FF_FFFF_FFFF_FFFF == slot && ((slot | (
    generation as u64) << 56) >> 56) as u8 == generation) by (bit_vector)
        requires
            slot < 0x0100_0000_0000_0000,
    ;
    assert((encoded & 0x00FF_FFFF_FFFF_FFFF) | (((encoded >> 56) as u8) as u64) << 56 == encoded)
        by (bit_vector);
}

/// The text `0x` and then two digits for each byte.
pub open spec fn hex_text(bytes: Seq<u8>) -> Seq<u8> {
    Seq::new(
        2 + 2 * bytes.len(),
        |i: int|
            if i == 0 {
                ASCII_0
            } else if i == 1 {
                ASCII_LOWER_X
            } else if i % 2 == 0 {
                hex_digit(bytes[(i - 2) / 2] >> 4)
            } else {
                hex_digit(bytes[(i - 2) / 2] & 0xF)
            },
    )
}

/// Converts bytes to upper-case hexadecimal digits with the prefix `0x`.
pub fn bytes_to_hex(bytes: &[u8]) -> (r: String)
    ensures
        r@ == ascii_text(hex_text(bytes@)),
{
    let mut hex: Vec<u8> = Vec::new();
    hex.push(ASCII_0);
    hex.push(ASCII_LOWER_X);
    let mut i: usize = 0;
    proof {
        lemma_hex_table();
        assert(hex@ =~= hex_text(bytes@.take(0)));
    }
    while i < bytes.len()
        invariant
            i <= bytes@.len(),
            HEX_CHARS_UPPER@.len() == 16,
            forall|n: int| 0 <= n < 16 ==> #[trigger] HEX_CHARS_UPPER@[n] == hex_digit(n as u8),
            hex@ == hex_text(bytes@.take(i as int)),
        decreases bytes@.len() - i,
    {
        let byte: u8 = bytes[i];
        proof {
            lemma_byte_nibbles(byte);
        }
        let ghost before = hex@;
        hex.push(HEX_CHARS_UPPER[(byte >> 4) as usize]);
        hex.push(HEX_CHARS_UPPER[(byte & 0xF) as usize]);
        i = i + 1;
        proof {
            let part = bytes@.take(i as int);
            assert forall|j: int| 0 <= j < hex@.len() implies #[trigger] hex@[j] == hex_text(
                part,
            )[j] by {
                if j < before.len() {
                    assert(hex@[j] == before[j]);
                    assert(before[j] == hex_text(bytes@.take(i - 1))[j]);
                    if j >= 2 {
                        assert(part[(j - 2) / 2] == bytes@.take(i - 1)[(j - 2) / 2]);
                    }
                } else {
                    assert((j - 2) / 2 == i - 1);
                    assert(part[i - 1] == byte);
                }
            }
            assert(hex@ =~= hex_text(part));
        }
    }
    assert(bytes@.take(i as int) =~= bytes@);
    proof {
        lemma_hex_text_ascii(bytes@);
    }
    ascii_str(hex.as_slice()).to_owned()
}

proof fn lemma_hex_text_ascii(bytes: Seq<u8>)
    ensures
        is_ascii(hex_text(bytes)),
{
    assert forall|i: int| 0 <= i < hex_text(bytes).len() implies hex_text(bytes)[i] < 128 by {
        if i >= 2 {
            let byte = bytes[(i - 2) / 2];
            lemma_byte_nibbles(byte);
        }
    }
}

/// The value of a hexadecimal digit.
pub open spec fn nibble_of(digit: u8) -> Option<u8> {
    if ASCII_0 <= digit <= ASCII_9 {
        Some((digit - ASCII_0) as u8)
    } else if ASCII_LOWER_A <= digit <= ASCII_LOWER_F {
        Some((digit - ASCII_LOWER_A + 10) as u8)
    } else if ASCII_UPPER_A <= digit <= ASCII_UPPER_F {
        Some((digit - ASCII_UPPER_A + 10) as u8)
    } else {
        None
    }
}

/// Decodes one hexadecimal digit.
pub fn hex_nibble(byte: u8) -> (r: Option<u8>)
    ensures
        r == nibble_of(byte),
{
    if ASCII_0 <= byte && byte <= ASCII_9 {
        Some(byte - ASCII_0)
    } else if ASCII_LOWER_A <= byte && byte <= ASCII_LOWER_F {
        Some(byte - ASCII_LOWER_A + 10)
    } else if ASCII_UPPER_A <= byte && byte <= ASCII_UPPER_F {
        Some(byte - ASCII_UPPER_A + 10)
    } else {
        None
    }
}

/// The digits of a hexadecimal text: what follows the prefix, if there is one.
pub open spec fn hex_digits(text: Seq<u8>) -> Seq<u8> {
    if text.len() >= 2 && text[0] == ASCII_0 && (text[1] == ASCII_LOWER_X || text[1] == ASCII_UPPER_X) {
        text.skip(2)
    } else {
        text
    }
}

/// The digits with a zero in front, if their number is odd.
pub open spec fn padded(digits: Seq<u8>) -> Seq<u8> {
    if digits.len() % 2 == 0 {
        digits
    } else {
        seq![ASCII_0] + digits
    }
}

/// The bytes that hexadecimal text stands for; `None` if there are no digits,
/// or something that is no digit.
pub open spec fn hex_bytes(text: Seq<u8>) -> Option<Seq<u8>> {
    let digits = hex_digits(text);
    let p = padded(digits);
    if digits.len() > 0 && (forall|i: int|
        0 <= i < digits.len() ==> nibble_of(#[trigger] digits[i]) is Some) {
        Some(
            Seq::new(
                p.len() / 2,
                |i: int| (nibble_of(p[2 * i])->0 * 16 + nibble_of(p[2 * i + 1])->0) as u8,
            ),
        )
    } else {
        None
    }
}

/// Converts hexadecimal text to bytes.
pub fn hex_to_bytes(hex: &str) -> (r: Option<Vec<u8>>)
    ensures
        match r {
            Some(bytes) => hex_bytes(hex.spec_bytes()) == Some(bytes@),
            None => hex_bytes(hex.spec_bytes()) is None,
        },
{
    let text: &[u8] = hex.as_bytes();
    let n: usize = text.len();
    let start: usize = if n >= 2 && text[0] == ASCII_0 && (text[1] == ASCII_LOWER_X || text[1] == ASCII_UPPER_X) {
        2
    } else {
        0
    };
    let ghost digits = hex_digits(text@);
    let ghost p = padded(digits);
    assert(digits =~= text@.skip(start as int));
    if start == n {
        return None;
    }
    let mut bytes: Vec<u8> = Vec::new();
    let mut i: usize = start;
    if (n - start) % 2 != 0 {
        match hex_nibble(text[i]) {
            Some(low) => {
                bytes.push(low);
            },
            None => {
                assert(nibble_of(digits[0]) is None);
                return None;
            },
        }
        i = i + 1;
        assert(p[0] == ASCII_0 && p[1] == digits[0]);
    }
    let ghost pad: int = if digits.len() % 2 == 0 {
        0
    } else {
        1
    };
    while i < n
        invariant
            text@ == hex.spec_bytes(),
            n == text@.len(),
            start <= i <= n,
            digits == text@.skip(start as int),
            digits.len() == n - start > 0,
            p == padded(digits),
            pad == if digits.len() % 2 == 0 {
                0int
            } else {
                1int
            },
            digits == hex_digits(text@),
            (i - start + pad) == 2 * bytes@.len(),
            forall|j: int| 0 <= j < i - start ==> nibble_of(#[trigger] digits[j]) is Some,
            forall|j: int|
                0 <= j < bytes@.len() ==> #[trigger] bytes@[j] == (nibble_of(p[2 * j])->0 * 16
                    + nibble_of(p[2 * j + 1])->0) as u8,
        decreases n - i,
    {
        let ghost k = i - start;
        assert(digits[k] == text@[i as int] && digits[k + 1] == text@[i + 1]);
        assert(p[k + pad] == digits[k] && p[k + 1 + pad] == digits[k + 1]);
        let high: u8 = match hex_nibble(text[i]) {
            Some(nibble) => nibble,
            None => {
                return None;
            },
        };
        let low: u8 = match hex_nibble(text[i + 1]) {
            Some(nibble) => nibble,
            None => {
                return None;
            },
        };
        assert((high << 4) | low == high * 16 + low) by (bit_vector)
            requires
                high < 16,
                low < 16,
        ;
        bytes.push((high << 4) | low);
        i = i + 2;
    }
    assert(bytes@ =~= hex_bytes(text@)->0);
    Some(bytes)
}

/// Decoding undoes encoding, for every byte sequence that is not empty. The
/// encoding of no bytes has no digits, and is refused.
pub proof fn hex_round_trip(bytes: Seq<u8>)
    ensures
        hex_bytes(encode_utf8(ascii_text(hex_text(bytes)))) == if bytes.len() > 0 {
            Some(bytes)
        } else {
            None
        },
{
    let text = hex_text(bytes);
    lemma_hex_text_ascii(bytes);
    lemma_ascii_text(text);
    let digits = hex_digits(text);
    assert(digits =~= text.skip(2));
    assert forall|i: int| 0 <= i < digits.len() implies nibble_of(#[trigger] digits[i]) is Some by {
        let byte = bytes[i / 2];
        lemma_byte_nibbles(byte);
        assert(digits[i] == text[i + 2]);
    }
    if bytes.len() > 0 {
        let back = hex_bytes(text)->0;
        assert forall|i: int| 0 <= i < bytes.len() implies #[trigger] back[i] == bytes[i] by {
            let byte = bytes[i];
            lemma_byte_nibbles(byte);
            assert(digits[2 * i] == text[2 * i + 2]);
            assert(digits[2 * i + 1] == text[2 * i + 3]);
        }
        assert(back =~= bytes);
    }
}

/// One line of a dump: the label, the number, and the end of the line.
pub fn u64_field(label: &str, value: u64) -> (r: String)
    ensures
        r@ == label@ + ascii_text(hex_form(value, 16)) + seq!['\n'],
{
    let hex = u64_to_hex_bytes(value);
    proof {
        assert forall|i: int| 0 <= i < hex@.len() implies hex@[i] < 128 by {
            if i >= 2 {
                lemma_nibbles(value, (4 * (17 - i)) as u64);
            }
        }
        reveal_strlit("\n");
        assert("\n"@ =~= seq!['\n']);
    }
    let mut line: String = label.to_owned();
    line.append(ascii_str(hex.as_slice()));
    line.append("\n");
    line
}

/// The monotonic tick counter.
pub struct TimerTicks {
    pub count: u64,
}

/// Fetches the tick counter.
pub fn get_timer_ticks(ticks: &TimerTicks) -> (r: u64)
    ensures
        r == ticks.count,
{
    ticks.count
}

/// The digits of the base sixteen are the ten figures and the letters from A to
/// F. Small letters are read too, and nothing else is.
pub proof fn hex_alphabet(n: u8, c: u8)
    ensures
        n < 10 ==> hex_digit(n) == 0x30 + n,
        10 <= n < 16 ==> hex_digit(n) == 0x41 + (n - 10),
        0x30 <= c <= 0x39 ==> nibble_of(c) == Some((c - 0x30) as u8),
        0x41 <= c <= 0x46 ==> nibble_of(c) == Some((c - 0x41 + 10) as u8),
        0x61 <= c <= 0x66 ==> nibble_of(c) == Some((c - 0x61 + 10) as u8),
        nibble_of(c) is Some <==> 0x30 <= c <= 0x39 || 0x41 <= c <= 0x46 || 0x61 <= c <= 0x66,
{
}

/// Behind `0x`, the digit at each place counts a power of sixteen, and the last
/// one counts ones.
pub proof fn hex_digits_count_powers(value: u64, count: nat, k: nat)
    requires
        k < count,
        4 * k < 64,
    ensures
        hex_form(value, count).len() == count + 2,
        hex_form(value, count)[0] == 0x30,
        hex_form(value, count)[1] == 0x78,
        hex_form(value, count)[count + 1 - k] == hex_digit(
            ((value as int / pow2(4 * k) as int) % 16) as u8,
        ),
{
    let shift = (4 * k) as u64;
    let high = value >> shift;
    vstd::bits::lemma_u64_shr_is_div(value, shift);
    vstd::bits::lemma_u64_low_bits_mask_is_mod(high, 4);
    vstd::arithmetic::power2::lemma2_to64();
    vstd::bits::lemma_low_bits_mask_values();
}

/// Each byte is written as two digits, in the order of the bytes.
pub proof fn hex_text_digits(bytes: Seq<u8>, i: int)
    requires
        0 <= i < bytes.len(),
    ensures
        hex_text(bytes).len() == 2 + 2 * bytes.len(),
        hex_text(bytes)[0] == 0x30,
        hex_text(bytes)[1] == 0x78,
        hex_text(bytes)[2 + 2 * i] == hex_digit((bytes[i] / 16) as u8),
        hex_text(bytes)[3 + 2 * i] == hex_digit((bytes[i] % 16) as u8),
{
    lemma_byte_nibbles(bytes[i]);
}

/// Hexadecimal text is read two digits at a time, from the end: a missing first
/// digit is a zero, and the prefix may be there or not.
pub proof fn hex_text_is_read(digits: Seq<u8>, i: int)
    requires
        digits.len() > 0,
        forall|j: int| 0 <= j < digits.len() ==> nibble_of(#[trigger] digits[j]) is Some,
    ensures
        hex_bytes(digits) is Some,
        hex_bytes(digits)->0.len() == (digits.len() + 1) / 2,
        digits.len() % 2 == 0 && 0 <= i < digits.len() / 2 ==> hex_bytes(digits)->0[i] == 16
            * nibble_of(digits[2 * i])->0 + nibble_of(digits[2 * i + 1])->0,
        digits.len() % 2 == 1 ==> hex_bytes(digits)->0[0] == nibble_of(digits[0])->0,
        digits.len() % 2 == 1 && 0 < i < (digits.len() + 1) / 2 ==> hex_bytes(digits)->0[i] == 16
            * nibble_of(digits[2 * i - 1])->0 + nibble_of(digits[2 * i])->0,
        hex_bytes(seq![0x30u8, 0x78u8] + digits) == hex_bytes(digits),
        hex_bytes(seq![0x30u8, 0x58u8] + digits) == hex_bytes(digits),
{
    if digits.len() >= 2 {
        assert(nibble_of(digits[1]) is Some);
    }
    assert(hex_digits(digits) =~= digits);
    assert((seq![0x30u8, 0x78u8] + digits).skip(2) =~= digits);
    assert((seq![0x30u8, 0x58u8] + digits).skip(2) =~= digits);
    assert(hex_digits(seq![0x30u8, 0x78u8] + digits) =~= digits);
    assert(hex_digits(seq![0x30u8, 0x58u8] + digits) =~= digits);
    if digits.len() % 2 == 1 {
        let p = padded(digits);
        assert(p[0] == 0x30 && p[1] == digits[0]);
        assert(nibble_of(digits[0]) is Some);
        if 0 < i < (digits.len() + 1) / 2 {
            assert(p[2 * i] == digits[2 * i - 1] && p[2 * i + 1] == digits[2 * i]);
            assert(nibble_of(digits[2 * i - 1]) is Some && nibble_of(digits[2 * i]) is Some);
        }
    } else if 0 <= i < digits.len() / 2 {
        assert(nibble_of(digits[2 * i]) is Some && nibble_of(digits[2 * i + 1]) is Some);
    }
}

/// Text with something that is no digit in it, behind the prefix, is refused,
/// and so is text without digits.
pub proof fn other_text_is_refused(digits: Seq<u8>, j: int)
    requires
        0 <= j < digits.len() ==> nibble_of(digits[j]) is None,
        0 <= j < digits.len() || digits.len() == 0,
    ensures
        hex_bytes(seq![0x30u8, 0x78u8] + digits) is None,
        hex_bytes(seq![0x30u8, 0x58u8] + digits) is None,
{
    assert(hex_digits(seq![0x30u8, 0x78u8] + digits) =~= digits);
    assert(hex_digits(seq![0x30u8, 0x58u8] + digits) =~= digits);
}

/// The decimal digits of a number are those of its tenth and the rest of the
/// division by ten, which the figures stand for.
pub proof fn decimal_digits(value: nat, figure: nat)
    requires
        figure < 10,
    ensures
        dec_form(figure) == seq![(0x30 + figure) as u8],
        value > 0 ==> dec_form(10 * value + figure) == dec_form(value).push(
            (0x30 + figure) as u8,
        ),
{
    assert((10 * value + figure) / 10 == value && (10 * value + figure) % 10 == figure);
}

/// A task's slot counts ones and its generation counts 2^56.
pub proof fn task_id_parts(task_id: TaskId, encoded: u64)
    requires
        task_id.slot_index < 0x0100_0000_0000_0000,
    ensures
        compressed(task_id) == task_id.slot_index + 0x0100_0000_0000_0000 * task_id.slot_generation,
        expanded(encoded).slot_index == encoded % 0x0100_0000_0000_0000,
        expanded(encoded).slot_generation == encoded / 0x0100_0000_0000_0000,
{
    let slot = task_id.slot_index;
    let generation = task_id.slot_generation;
    assert((slot | (generation as u64) << 56) == slot + 0x0100_0000_0000_0000 * (generation as u64)
        && encoded & 0x00FF_FFFF_FFFF_FFFF == encoded % 0x0100_0000_0000_0000 && (encoded
        >> 56) as u8 == encoded / 0x0100_0000_0000_0000) by (bit_vector)
        requires
            slot < 0x0100_0000_0000_0000,
    ;
}

} // verus!
