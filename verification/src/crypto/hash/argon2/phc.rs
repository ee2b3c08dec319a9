//! Hash records as text: fields between dollar signs, the third of which
//! holds the costs between commas.

use vstd::prelude::*;
use vstd::string::{StringExecFns, StringSliceAdditionalSpecFns};

use super::Argon2Error;
use crate::base64::{
    base64_alphabet, base64_bytes, base64_decode_bytes, base64_encode, base64_round_trip,
    base64_text, symbol_value,
};
use crate::bytes::{append, bytes_eq, copy_range};
use crate::globals::{ASCII_0, ASCII_9};
use crate::helper_functions::{
    ascii_text, dec_form, dec_form_round_trip, dec_value, is_ascii, u32_to_dec_str,
};

verus! {

pub const ASCII_DOLLAR: u8 = 0x24;

pub const ASCII_COMMA: u8 = 0x2C;

pub const ASCII_EQUALS: u8 = 0x3D;

pub const ASCII_LOWER_M: u8 = 0x6D;

pub const ASCII_LOWER_P: u8 = 0x70;

pub const ASCII_LOWER_T: u8 = 0x74;

/// The text `argon2id`.
pub const ALGORITHM: [u8; 8] = [0x61, 0x72, 0x67, 0x6F, 0x6E, 0x32, 0x69, 0x64];

/// The text `v=19`.
pub const VERSION: [u8; 4] = [0x76, 0x3D, 0x31, 0x39];

/// The number of bytes before the first separator.
pub open spec fn piece_len(text: Seq<u8>, sep: u8) -> int
    decreases text.len(),
{
    if text.len() == 0 || text[0] == sep {
        0
    } else {
        1 + piece_len(text.skip(1), sep)
    }
}

proof fn lemma_piece_len(text: Seq<u8>, sep: u8)
    ensures
        0 <= piece_len(text, sep) <= text.len(),
        forall|i: int| 0 <= i < piece_len(text, sep) ==> text[i] != sep,
        piece_len(text, sep) < text.len() ==> text[piece_len(text, sep)] == sep,
    decreases text.len(),
{
    if text.len() > 0 && text[0] != sep {
        lemma_piece_len(text.skip(1), sep);
        assert forall|i: int| 0 <= i < piece_len(text, sep) implies text[i] != sep by {
            if i > 0 {
                assert(text.skip(1)[i - 1] == text[i]);
            }
        }
    }
}

proof fn lemma_piece_len_is(text: Seq<u8>, sep: u8, n: int)
    requires
        0 <= n <= text.len(),
        forall|i: int| 0 <= i < n ==> text[i] != sep,
        n < text.len() ==> text[n] == sep,
    ensures
        piece_len(text, sep) == n,
{
    lemma_piece_len(text, sep);
    let k = piece_len(text, sep);
    if k < n {
        assert(text[k] != sep);
    } else if n < k {
        assert(text[n] != sep);
    }
}

/// What stands between the separators. Pieces can be empty, and there is
/// always one.
pub open spec fn pieces(text: Seq<u8>, sep: u8) -> Seq<Seq<u8>>
    decreases text.len(),
{
    let n = piece_len(text, sep);
    if 0 <= n < text.len() {
        seq![text.take(n)] + pieces(text.skip(n + 1), sep)
    } else {
        seq![text]
    }
}

/// Pieces with separators between them.
pub open spec fn joined(parts: Seq<Seq<u8>>, sep: u8) -> Seq<u8>
    decreases parts.len(),
{
    if parts.len() == 0 {
        seq![]
    } else if parts.len() == 1 {
        parts[0]
    } else {
        joined(parts.drop_last(), sep) + seq![sep] + parts.last()
    }
}

/// No byte is the separator.
pub open spec fn lacks(text: Seq<u8>, sep: u8) -> bool {
    forall|i: int| 0 <= i < text.len() ==> text[i] != sep
}

/// The pieces of two texts joined by a separator are those of the one and then
/// those of the other.
pub proof fn pieces_join(a: Seq<u8>, b: Seq<u8>, sep: u8)
    ensures
        pieces(a + seq![sep] + b, sep) == pieces(a, sep) + pieces(b, sep),
    decreases a.len(),
{
    let whole = a + seq![sep] + b;
    lemma_piece_len(a, sep);
    let n = piece_len(a, sep);
    assert(whole[n] == if n < a.len() {
        a[n]
    } else {
        sep
    });
    lemma_piece_len_is(whole, sep, n);
    assert(whole.take(n) =~= a.take(n));
    if n < a.len() {
        pieces_join(a.skip(n + 1), b, sep);
        assert(whole.skip(n + 1) =~= a.skip(n + 1) + seq![sep] + b);
        assert(pieces(whole, sep) =~= pieces(a, sep) + pieces(b, sep));
    } else {
        assert(a.take(n) =~= a);
        assert(whole.skip(n + 1) =~= b);
    }
}

/// Taking joined pieces apart gives them back.
pub proof fn joined_round_trip(parts: Seq<Seq<u8>>, sep: u8)
    requires
        parts.len() > 0,
        forall|i: int| 0 <= i < parts.len() ==> lacks(#[trigger] parts[i], sep),
    ensures
        pieces(joined(parts, sep), sep) == parts,
    decreases parts.len(),
{
    lemma_one_piece(parts.last(), sep);
    if parts.len() == 1 {
        assert(parts =~= seq![parts[0]]);
    } else {
        joined_round_trip(parts.drop_last(), sep);
        pieces_join(joined(parts.drop_last(), sep), parts.last(), sep);
        assert(parts =~= parts.drop_last() + seq![parts.last()]);
    }
}

proof fn lemma_one_piece(text: Seq<u8>, sep: u8)
    requires
        lacks(text, sep),
    ensures
        pieces(text, sep) == seq![text],
{
    lemma_piece_len_is(text, sep, text.len() as int);
}

proof fn lemma_joined_ascii(parts: Seq<Seq<u8>>, sep: u8)
    requires
        forall|i: int| 0 <= i < parts.len() ==> is_ascii(#[trigger] parts[i]),
        sep < 128,
    ensures
        is_ascii(joined(parts, sep)),
    decreases parts.len(),
{
    if parts.len() > 1 {
        lemma_joined_ascii(parts.drop_last(), sep);
        assert(is_ascii(parts[parts.len() - 1]));
    }
}

/// All bytes are decimal digits.
pub open spec fn all_digits(text: Seq<u8>) -> bool {
    forall|i: int| 0 <= i < text.len() ==> ASCII_0 <= #[trigger] text[i] <= ASCII_9
}

/// The number that decimal digits stand for, where there is one below 2^32.
pub open spec fn number(text: Seq<u8>) -> Option<u32> {
    if text.len() > 0 && all_digits(text) && dec_value(text) <= u32::MAX {
        Some(dec_value(text) as u32)
    } else {
        None
    }
}

/// A cost: a letter, an equals sign and the number.
pub open spec fn param_text(key: u8, value: u32) -> Seq<u8> {
    seq![key, ASCII_EQUALS] + dec_form(value as nat)
}

/// The number of a cost.
pub open spec fn param_value(text: Seq<u8>, key: u8) -> Option<u32> {
    if text.len() >= 2 && text[0] == key && text[1] == ASCII_EQUALS {
        number(text.skip(2))
    } else {
        None
    }
}

/// What a hash record holds.
pub ghost struct PhcFields {
    pub salt: Seq<u8>,
    pub hash: Seq<u8>,
    pub m_cost: u32,
    pub t_cost: u32,
    pub p_cost: u32,
}

/// The costs as text.
pub open spec fn costs_text(f: PhcFields) -> Seq<u8> {
    joined(
        seq![
            param_text(ASCII_LOWER_M, f.m_cost),
            param_text(ASCII_LOWER_T, f.t_cost),
            param_text(ASCII_LOWER_P, f.p_cost),
        ],
        ASCII_COMMA,
    )
}

/// A hash record as text.
pub open spec fn phc_text(f: PhcFields) -> Seq<u8> {
    joined(
        seq![
            seq![],
            ALGORITHM@,
            VERSION@,
            costs_text(f),
            base64_text(f.salt),
            base64_text(f.hash),
        ],
        ASCII_DOLLAR,
    )
}

/// What the text of a hash record holds.
pub open spec fn phc_fields(text: Seq<u8>) -> Option<PhcFields> {
    let parts = pieces(text, ASCII_DOLLAR);
    if parts.len() != 6 || parts[0].len() != 0 || parts[1] != ALGORITHM@ || parts[2] != VERSION@ {
        None
    } else {
        let params = pieces(parts[3], ASCII_COMMA);
        if params.len() != 3 {
            None
        } else {
            match (
                param_value(params[0], ASCII_LOWER_M),
                param_value(params[1], ASCII_LOWER_T),
                param_value(params[2], ASCII_LOWER_P),
                base64_bytes(parts[4]),
                base64_bytes(parts[5]),
            ) {
                (Some(m_cost), Some(t_cost), Some(p_cost), Some(salt), Some(hash)) => Some(
                    PhcFields { salt, hash, m_cost, t_cost, p_cost },
                ),
                _ => None,
            }
        }
    }
}

/// The decimal form of a number is made of digits.
proof fn lemma_dec_digits(value: nat)
    ensures
        all_digits(dec_form(value)),
    decreases value,
{
    if value >= 10 {
        lemma_dec_digits(value / 10);
    }
}

proof fn lemma_param(key: u8, value: u32)
    requires
        key != ASCII_COMMA,
        key != ASCII_DOLLAR,
        key < 128,
    ensures
        param_value(param_text(key, value), key) == Some(value),
        lacks(param_text(key, value), ASCII_COMMA),
        lacks(param_text(key, value), ASCII_DOLLAR),
        is_ascii(param_text(key, value)),
{
    dec_form_round_trip(value as nat);
    lemma_dec_digits(value as nat);
    assert(param_text(key, value).skip(2) =~= dec_form(value as nat));
    assert forall|i: int| 0 <= i < param_text(key, value).len() implies param_text(key, value)[i]
        != ASCII_COMMA && param_text(key, value)[i] != ASCII_DOLLAR by {
        if i >= 2 {
            assert(param_text(key, value)[i] == dec_form(value as nat)[i - 2]);
        }
    }
}

proof fn lemma_joined_lacks(parts: Seq<Seq<u8>>, sep: u8, other: u8)
    requires
        forall|i: int| 0 <= i < parts.len() ==> lacks(#[trigger] parts[i], other),
        sep != other,
    ensures
        lacks(joined(parts, sep), other),
    decreases parts.len(),
{
    if parts.len() > 1 {
        lemma_joined_lacks(parts.drop_last(), sep, other);
        assert(lacks(parts[parts.len() - 1], other));
    }
}

proof fn lemma_base64_field(bytes: Seq<u8>)
    ensures
        lacks(base64_text(bytes), ASCII_DOLLAR),
{
    base64_alphabet(bytes);
    assert forall|i: int| 0 <= i < base64_text(bytes).len() implies base64_text(bytes)[i]
        != ASCII_DOLLAR by {
        assert(symbol_value(base64_text(bytes)[i]) is Some);
    }
}

/// Reading a hash record gives back what was written, and its text is ASCII.
pub proof fn phc_round_trip(f: PhcFields)
    ensures
        phc_fields(phc_text(f)) == Some(f),
        is_ascii(phc_text(f)),
{
    let params = seq![
        param_text(ASCII_LOWER_M, f.m_cost),
        param_text(ASCII_LOWER_T, f.t_cost),
        param_text(ASCII_LOWER_P, f.p_cost),
    ];
    lemma_param(ASCII_LOWER_M, f.m_cost);
    lemma_param(ASCII_LOWER_T, f.t_cost);
    lemma_param(ASCII_LOWER_P, f.p_cost);
    joined_round_trip(params, ASCII_COMMA);
    lemma_joined_lacks(params, ASCII_COMMA, ASCII_DOLLAR);
    lemma_joined_ascii(params, ASCII_COMMA);
    lemma_base64_field(f.salt);
    lemma_base64_field(f.hash);
    base64_round_trip(f.salt);
    base64_round_trip(f.hash);
    base64_alphabet(f.salt);
    base64_alphabet(f.hash);
    let parts = seq![
        seq![],
        ALGORITHM@,
        VERSION@,
        costs_text(f),
        base64_text(f.salt),
        base64_text(f.hash),
    ];
    lemma_fixed_fields();
    joined_round_trip(parts, ASCII_DOLLAR);
    lemma_joined_ascii(parts, ASCII_DOLLAR);
}

proof fn lemma_fixed_fields()
    ensures
        lacks(ALGORITHM@, ASCII_DOLLAR),
        lacks(VERSION@, ASCII_DOLLAR),
        is_ascii(ALGORITHM@),
        is_ascii(VERSION@),
{
    assert forall|i: int| 0 <= i < ALGORITHM@.len() implies ALGORITHM@[i] != ASCII_DOLLAR
        && ALGORITHM@[i] < 128 by {
        assert(i == 0 || i == 1 || i == 2 || i == 3 || i == 4 || i == 5 || i == 6 || i == 7);
    }
    assert forall|i: int| 0 <= i < VERSION@.len() implies VERSION@[i] != ASCII_DOLLAR
        && VERSION@[i] < 128 by {
        assert(i == 0 || i == 1 || i == 2 || i == 3);
    }
}

/// The parts of a text, taken by their bytes.
pub open spec fn views(parts: Seq<Vec<u8>>) -> Seq<Seq<u8>> {
    Seq::new(parts.len(), |i: int| parts[i]@)
}

/// Takes a text apart at the separators.
fn split(text: &[u8], sep: u8) -> (parts: Vec<Vec<u8>>)
    ensures
        views(parts@) == pieces(text@, sep),
{
    let n: usize = text.len();
    let mut parts: Vec<Vec<u8>> = Vec::new();
    let mut start: usize = 0;
    let mut i: usize = 0;
    assert(text@.skip(0) =~= text@);
    assert(views(parts@) + pieces(text@, sep) =~= pieces(text@, sep));
    while i < n
        invariant
            start <= i <= n == text@.len(),
            forall|k: int| start <= k < i ==> text@[k] != sep,
            pieces(text@, sep) == views(parts@) + pieces(text@.skip(start as int), sep),
        decreases n - i,
    {
        if text[i] == sep {
            let ghost rest = text@.skip(start as int);
            let ghost before = views(parts@);
            let piece = copy_range(text, start, i);
            proof {
                lemma_piece_len_is(rest, sep, i - start);
                assert(piece@ =~= rest.take(i - start));
                assert(rest.skip(i - start + 1) =~= text@.skip(i + 1));
            }
            parts.push(piece);
            assert(views(parts@) =~= before.push(piece@));
            assert(before + (seq![piece@] + pieces(text@.skip(i + 1), sep)) =~= views(parts@)
                + pieces(text@.skip(i + 1), sep));
            start = i + 1;
        }
        i = i + 1;
    }
    let ghost rest = text@.skip(start as int);
    let ghost before = views(parts@);
    let piece = copy_range(text, start, n);
    proof {
        lemma_one_piece(rest, sep);
        assert(piece@ =~= rest);
    }
    parts.push(piece);
    assert(views(parts@) =~= before + seq![rest]);
    parts
}

/// Leading digits stand for no more than all of them do.
proof fn lemma_prefix_value(text: Seq<u8>, n: int)
    requires
        0 <= n <= text.len(),
        all_digits(text),
    ensures
        dec_value(text.take(n)) <= dec_value(text),
    decreases text.len() - n,
{
    if n < text.len() {
        lemma_prefix_value(text, n + 1);
        assert(text.take(n + 1).drop_last() =~= text.take(n));
    } else {
        assert(text.take(n) =~= text);
    }
}

/// Reads a decimal number.
pub fn parse_u32(s: &[u8]) -> (r: Option<u32>)
    ensures
        r == number(s@),
{
    if s.len() == 0 {
        return None;
    }
    let mut result: u32 = 0;
    let mut i: usize = 0;
    assert(s@.take(0) =~= seq![]);
    while i < s.len()
        invariant
            0 < s@.len(),
            i <= s@.len(),
            all_digits(s@.take(i as int)),
            result == dec_value(s@.take(i as int)),
        decreases s@.len() - i,
    {
        let b: u8 = s[i];
        if b < ASCII_0 || b > ASCII_9 {
            return None;
        }
        let ghost next = s@.take(i + 1);
        proof {
            assert(next.drop_last() =~= s@.take(i as int));
            assert forall|k: int| 0 <= k < next.len() implies ASCII_0 <= #[trigger] next[k]
                <= ASCII_9 by {
                if k < i {
                    assert(next[k] == s@.take(i as int)[k]);
                }
            }
            if all_digits(s@) {
                lemma_prefix_value(s@, i + 1);
            }
        }
        let tens: u32 = match result.checked_mul(10) {
            Some(t) => t,
            None => {
                return None;
            },
        };
        result = match tens.checked_add((b - ASCII_0) as u32) {
            Some(t) => t,
            None => {
                return None;
            },
        };
        i = i + 1;
    }
    assert(s@.take(i as int) =~= s@);
    Some(result)
}

/// Reads a cost.
pub fn parse_param(s: &[u8], key: u8) -> (r: Option<u32>)
    ensures
        r == param_value(s@, key),
{
    if s.len() < 2 || s[0] != key || s[1] != ASCII_EQUALS {
        return None;
    }
    let rest: &[u8] = vstd::slice::slice_subrange(s, 2, s.len());
    assert(rest@ =~= s@.skip(2));
    parse_u32(rest)
}

/// Writes a number in decimal.
pub fn u32_to_alloc_string(v: u32) -> (r: String)
    ensures
        r@ == ascii_text(dec_form(v as nat)),
{
    let mut buffer: [u8; 10] = [0;10];
    u32_to_dec_str(v, &mut buffer).to_string()
}

/// Writes a hash record.
pub fn encode_phc(salt: &[u8], hash: &[u8; 32], m_cost: u32, t_cost: u32, p_cost: u32) -> (r: String)
    ensures
        r@ == ascii_text(phc_text(PhcFields { salt: salt@, hash: hash@, m_cost, t_cost, p_cost })),
{
    let ghost f = PhcFields { salt: salt@, hash: hash@, m_cost, t_cost, p_cost };
    let mut s: String = "$argon2id$v=19$m=".to_string();
    s.append(u32_to_alloc_string(m_cost).as_str());
    s.append(",t=");
    s.append(u32_to_alloc_string(t_cost).as_str());
    s.append(",p=");
    s.append(u32_to_alloc_string(p_cost).as_str());
    s.append("$");
    s.append(base64_encode(salt).as_str());
    s.append("$");
    s.append(base64_encode(hash).as_str());
    proof {
        reveal_strlit("$argon2id$v=19$m=");
        reveal_strlit(",t=");
        reveal_strlit(",p=");
        reveal_strlit("$");
        let m = dec_form(m_cost as nat);
        let t = dec_form(t_cost as nat);
        let p = dec_form(p_cost as nat);
        let head = seq![ASCII_DOLLAR] + ALGORITHM@ + seq![ASCII_DOLLAR] + VERSION@ + seq![
            ASCII_DOLLAR,
        ];
        assert("$argon2id$v=19$m="@ =~= ascii_text(head + seq![ASCII_LOWER_M, ASCII_EQUALS]));
        assert(",t="@ =~= ascii_text(seq![ASCII_COMMA, ASCII_LOWER_T, ASCII_EQUALS]));
        assert(",p="@ =~= ascii_text(seq![ASCII_COMMA, ASCII_LOWER_P, ASCII_EQUALS]));
        assert("$"@ =~= ascii_text(seq![ASCII_DOLLAR]));
        lemma_phc_text(f);
        let all = head + seq![ASCII_LOWER_M, ASCII_EQUALS] + m + seq![
            ASCII_COMMA,
            ASCII_LOWER_T,
            ASCII_EQUALS,
        ] + t + seq![ASCII_COMMA, ASCII_LOWER_P, ASCII_EQUALS] + p + seq![ASCII_DOLLAR]
            + base64_text(salt@) + seq![ASCII_DOLLAR] + base64_text(hash@);
        assert(s@ =~= ascii_text(all));
    }
    s
}

/// The text of a hash record, written out.
proof fn lemma_phc_text(f: PhcFields)
    ensures
        phc_text(f) == seq![ASCII_DOLLAR] + ALGORITHM@ + seq![ASCII_DOLLAR] + VERSION@ + seq![
            ASCII_DOLLAR,
        ] + seq![ASCII_LOWER_M, ASCII_EQUALS] + dec_form(f.m_cost as nat) + seq![
            ASCII_COMMA,
            ASCII_LOWER_T,
            ASCII_EQUALS,
        ] + dec_form(f.t_cost as nat) + seq![ASCII_COMMA, ASCII_LOWER_P, ASCII_EQUALS] + dec_form(
            f.p_cost as nat,
        ) + seq![ASCII_DOLLAR] + base64_text(f.salt) + seq![ASCII_DOLLAR] + base64_text(f.hash),
{
    let m = param_text(ASCII_LOWER_M, f.m_cost);
    let t = param_text(ASCII_LOWER_T, f.t_cost);
    let p = param_text(ASCII_LOWER_P, f.p_cost);
    let empty: Seq<u8> = seq![];
    let d = seq![ASCII_DOLLAR];
    let c = seq![ASCII_COMMA];
    let six = seq![
        empty,
        ALGORITHM@,
        VERSION@,
        costs_text(f),
        base64_text(f.salt),
        base64_text(f.hash),
    ];
    let five = seq![empty, ALGORITHM@, VERSION@, costs_text(f), base64_text(f.salt)];
    let four = seq![empty, ALGORITHM@, VERSION@, costs_text(f)];
    let three = seq![empty, ALGORITHM@, VERSION@];
    let two = seq![empty, ALGORITHM@];
    let one = seq![empty];
    assert(six.drop_last() =~= five);
    assert(five.drop_last() =~= four);
    assert(four.drop_last() =~= three);
    assert(three.drop_last() =~= two);
    assert(two.drop_last() =~= one);
    assert(phc_text(f) == joined(five, ASCII_DOLLAR) + d + base64_text(f.hash));
    assert(joined(five, ASCII_DOLLAR) == joined(four, ASCII_DOLLAR) + d + base64_text(f.salt));
    assert(joined(four, ASCII_DOLLAR) == joined(three, ASCII_DOLLAR) + d + costs_text(f));
    assert(joined(three, ASCII_DOLLAR) == joined(two, ASCII_DOLLAR) + d + VERSION@);
    assert(joined(two, ASCII_DOLLAR) == joined(one, ASCII_DOLLAR) + d + ALGORITHM@);
    let params = seq![m, t, p];
    let mt = seq![m, t];
    let m1 = seq![m];
    assert(params.drop_last() =~= mt);
    assert(mt.drop_last() =~= m1);
    assert(costs_text(f) == joined(mt, ASCII_COMMA) + c + p);
    assert(joined(mt, ASCII_COMMA) == joined(m1, ASCII_COMMA) + c + t);
    let (me, te, pe) = (
        seq![ASCII_LOWER_M, ASCII_EQUALS],
        seq![ASCII_LOWER_T, ASCII_EQUALS],
        seq![ASCII_LOWER_P, ASCII_EQUALS],
    );
    let (cte, cpe) = (
        seq![ASCII_COMMA, ASCII_LOWER_T, ASCII_EQUALS],
        seq![ASCII_COMMA, ASCII_LOWER_P, ASCII_EQUALS],
    );
    let (mv, tv, pv) = (
        dec_form(f.m_cost as nat),
        dec_form(f.t_cost as nat),
        dec_form(f.p_cost as nat),
    );
    assert(c + te =~= cte);
    assert(c + pe =~= cpe);
    lemma_regroup(me + mv, c, te, tv);
    lemma_regroup(me + mv + cte + tv, c, pe, pv);
    assert(costs_text(f) == me + mv + cte + tv + cpe + pv);
    assert(empty + d =~= d);
    let head = d + ALGORITHM@ + d + VERSION@ + d;
    lemma_flatten(head, me, mv, cte, tv, cpe, pv);
}

proof fn lemma_regroup(a: Seq<u8>, b: Seq<u8>, c: Seq<u8>, d: Seq<u8>)
    ensures
        a + b + (c + d) == a + (b + c) + d,
{
    assert(a + b + (c + d) =~= a + (b + c) + d);
}

proof fn lemma_flatten(
    x: Seq<u8>,
    a: Seq<u8>,
    b: Seq<u8>,
    c: Seq<u8>,
    d: Seq<u8>,
    e: Seq<u8>,
    f: Seq<u8>,
)
    ensures
        x + (a + b + c + d + e + f) == x + a + b + c + d + e + f,
{
    assert(x + (a + b + c + d + e + f) =~= x + (a + b + c + d + e) + f);
    assert(x + (a + b + c + d + e) =~= x + (a + b + c + d) + e);
    assert(x + (a + b + c + d) =~= x + (a + b + c) + d);
    assert(x + (a + b + c) =~= x + (a + b) + c);
    assert(x + (a + b) =~= x + a + b);
}

/// Reads a hash record: the salt, the hash, and the costs of memory, time and
/// parallelism.
pub fn decode_phc(phc: &str) -> (r: Result<(Vec<u8>, Vec<u8>, u32, u32, u32), Argon2Error>)
    ensures
        match r {
            Ok((salt, hash, m_cost, t_cost, p_cost)) => phc_fields(phc.spec_bytes()) == Some(
                PhcFields { salt: salt@, hash: hash@, m_cost, t_cost, p_cost },
            ),
            Err(e) => e == Argon2Error::InvalidPhcString && phc_fields(phc.spec_bytes()) is None,
        },
{
    let text: &[u8] = phc.as_bytes();
    let parts = split(text, ASCII_DOLLAR);
    let ghost p = pieces(text@, ASCII_DOLLAR);
    assert(views(parts@).len() == parts@.len());
    assert(forall|i: int| 0 <= i < parts@.len() ==> views(parts@)[i] == (#[trigger] parts@[i])@);
    if parts.len() != 6 || parts[0].len() != 0 || !bytes_eq(parts[1].as_slice(), &ALGORITHM)
        || !bytes_eq(parts[2].as_slice(), &VERSION) {
        return Err(Argon2Error::InvalidPhcString);
    }
    let params = split(parts[3].as_slice(), ASCII_COMMA);
    assert(views(params@).len() == params@.len());
    assert(forall|i: int| 0 <= i < params@.len() ==> views(params@)[i] == (#[trigger] params@[i])@);
    if params.len() != 3 {
        return Err(Argon2Error::InvalidPhcString);
    }
    let m_cost: Option<u32> = parse_param(params[0].as_slice(), ASCII_LOWER_M);
    let t_cost: Option<u32> = parse_param(params[1].as_slice(), ASCII_LOWER_T);
    let p_cost: Option<u32> = parse_param(params[2].as_slice(), ASCII_LOWER_P);
    let salt = base64_decode_bytes(parts[4].as_slice());
    let hash = base64_decode_bytes(parts[5].as_slice());
    match (m_cost, t_cost, p_cost, salt, hash) {
        (Some(m), Some(t), Some(p), Some(s), Some(h)) => Ok((s, h, m, t, p)),
        _ => Err(Argon2Error::InvalidPhcString),
    }
}

/// Text is made of its pieces with separators between them; no piece holds a
/// separator.
pub proof fn pieces_make_the_text(text: Seq<u8>, sep: u8)
    ensures
        pieces(text, sep).len() > 0,
        joined(pieces(text, sep), sep) == text,
        forall|i: int| 0 <= i < pieces(text, sep).len() ==> lacks(#[trigger] pieces(text, sep)[i], sep),
    decreases text.len(),
{
    let n = piece_len(text, sep);
    lemma_piece_len(text, sep);
    if n < text.len() {
        let rest = pieces(text.skip(n + 1), sep);
        pieces_make_the_text(text.skip(n + 1), sep);
        lemma_joined_front(text.take(n), rest, sep);
        assert(text =~= text.take(n) + seq![sep] + text.skip(n + 1));
        let all = seq![text.take(n)] + rest;
        assert forall|i: int| 0 <= i < all.len() implies lacks(#[trigger] all[i], sep) by {
            if i > 0 {
                assert(all[i] == rest[i - 1]);
            }
        }
    }
}

proof fn lemma_joined_front(first: Seq<u8>, rest: Seq<Seq<u8>>, sep: u8)
    requires
        rest.len() > 0,
    ensures
        joined(seq![first] + rest, sep) == first + seq![sep] + joined(rest, sep),
    decreases rest.len(),
{
    let all = seq![first] + rest;
    assert(all.last() == rest.last());
    if rest.len() == 1 {
        reveal_with_fuel(joined, 2);
        assert(all.drop_last() =~= seq![first]);
        assert(joined(all, sep) =~= first + seq![sep] + joined(rest, sep));
    } else {
        lemma_joined_front(first, rest.drop_last(), sep);
        assert(all.drop_last() =~= seq![first] + rest.drop_last());
        assert(joined(all, sep) =~= first + seq![sep] + joined(rest, sep));
    }
}

proof fn lemma_two(a: Seq<u8>, b: Seq<u8>, sep: u8)
    ensures
        joined(seq![a, b], sep) == a + seq![sep] + b,
{
    reveal_with_fuel(joined, 2);
    assert(seq![a, b].drop_last() =~= seq![a]);
}

proof fn lemma_three(a: Seq<u8>, b: Seq<u8>, c: Seq<u8>, sep: u8)
    ensures
        joined(seq![a, b, c], sep) == a + seq![sep] + b + seq![sep] + c,
{
    lemma_two(a, b, sep);
    assert(seq![a, b, c].drop_last() =~= seq![a, b]);
}

proof fn lemma_six(a: Seq<u8>, b: Seq<u8>, c: Seq<u8>, d: Seq<u8>, e: Seq<u8>, f: Seq<u8>, sep: u8)
    ensures
        joined(seq![a, b, c, d, e, f], sep) == a + seq![sep] + b + seq![sep] + c + seq![sep] + d
            + seq![sep] + e + seq![sep] + f,
{
    reveal_with_fuel(joined, 4);
    lemma_three(a, b, c, sep);
    assert(seq![a, b, c, d, e, f].drop_last() =~= seq![a, b, c, d, e]);
    assert(seq![a, b, c, d, e].drop_last() =~= seq![a, b, c, d]);
    assert(seq![a, b, c, d].drop_last() =~= seq![a, b, c]);
}

/// The costs read `m=..,t=..,p=..`, as decimal numbers.
pub proof fn costs_read(f: PhcFields)
    ensures
        costs_text(f) == (seq![0x6Du8, 0x3Du8] + dec_form(f.m_cost as nat)) + seq![0x2Cu8] + (seq![
            0x74u8,
            0x3Du8,
        ] + dec_form(f.t_cost as nat)) + seq![0x2Cu8] + (seq![0x70u8, 0x3Du8] + dec_form(
            f.p_cost as nat,
        )),
{
    lemma_three(
        param_text(ASCII_LOWER_M, f.m_cost),
        param_text(ASCII_LOWER_T, f.t_cost),
        param_text(ASCII_LOWER_P, f.p_cost),
        ASCII_COMMA,
    );
}

/// A record reads `$argon2id$v=19$`, the costs, `$`, the salt in Base64, `$`, the
/// digest in Base64.
pub proof fn record_reads(f: PhcFields)
    ensures
        phc_text(f) == Seq::<u8>::empty() + seq![0x24u8] + ALGORITHM@ + seq![0x24u8] + VERSION@
            + seq![0x24u8] + costs_text(f) + seq![0x24u8] + base64_text(f.salt) + seq![0x24u8]
            + base64_text(f.hash),
        ALGORITHM@ == seq![0x61u8, 0x72, 0x67, 0x6F, 0x6E, 0x32, 0x69, 0x64],
        VERSION@ == seq![0x76u8, 0x3D, 0x31, 0x39],
{
    lemma_six(
        Seq::empty(),
        ALGORITHM@,
        VERSION@,
        costs_text(f),
        base64_text(f.salt),
        base64_text(f.hash),
        ASCII_DOLLAR,
    );
    assert(ALGORITHM@ =~= seq![0x61u8, 0x72, 0x67, 0x6F, 0x6E, 0x32, 0x69, 0x64]);
    assert(VERSION@ =~= seq![0x76u8, 0x3D, 0x31, 0x39]);
}

/// What is read as a record is one: between six dollar signs' worth of pieces
/// stand nothing, the algorithm, the version, three costs as decimal numbers
/// below 2^32, and two pieces of Base64, which give what is read.
pub proof fn only_records_are_read(text: Seq<u8>, f: PhcFields)
    requires
        phc_fields(text) == Some(f),
    ensures
        exists|m: Seq<u8>, t: Seq<u8>, p: Seq<u8>, salt: Seq<u8>, hash: Seq<u8>|
            {
                &&& #[trigger] spells(m, f.m_cost)
                &&& #[trigger] spells(t, f.t_cost)
                &&& #[trigger] spells(p, f.p_cost)
                &&& #[trigger] base64_bytes(salt) == Some(f.salt)
                &&& #[trigger] base64_bytes(hash) == Some(f.hash)
                &&& text == joined(
                    seq![
                        seq![],
                        ALGORITHM@,
                        VERSION@,
                        joined(
                            seq![
                                seq![0x6Du8, 0x3Du8] + m,
                                seq![0x74u8, 0x3Du8] + t,
                                seq![0x70u8, 0x3Du8] + p,
                            ],
                            0x2C,
                        ),
                        salt,
                        hash,
                    ],
                    0x24,
                )
            },
{
    let parts = pieces(text, ASCII_DOLLAR);
    let params = pieces(parts[3], ASCII_COMMA);
    pieces_make_the_text(text, ASCII_DOLLAR);
    pieces_make_the_text(parts[3], ASCII_COMMA);
    let (m, t, p) = (params[0].skip(2), params[1].skip(2), params[2].skip(2));
    assert(params[0] =~= seq![0x6Du8, 0x3Du8] + m);
    assert(params[1] =~= seq![0x74u8, 0x3Du8] + t);
    assert(params[2] =~= seq![0x70u8, 0x3Du8] + p);
    assert(params =~= seq![
        seq![0x6Du8, 0x3Du8] + m,
        seq![0x74u8, 0x3Du8] + t,
        seq![0x70u8, 0x3Du8] + p,
    ]);
    assert(parts[0] =~= seq![]);
    assert(parts =~= seq![seq![], ALGORITHM@, VERSION@, parts[3], parts[4], parts[5]]);
    assert(spells(m, f.m_cost) && spells(t, f.t_cost) && spells(p, f.p_cost));
    assert(base64_bytes(parts[4]) == Some(f.salt) && base64_bytes(parts[5]) == Some(f.hash));
}

/// The text is made of figures, at least one, that stand for the number.
pub open spec fn spells(text: Seq<u8>, value: u32) -> bool {
    &&& text.len() > 0
    &&& forall|i: int| 0 <= i < text.len() ==> 0x30 <= #[trigger] text[i] <= 0x39
    &&& dec_value(text) == value
}

/// A cost is read if it is a letter, an equals sign and figures that stand for
/// a number below 2^32, and then it is that number.
pub proof fn costs_are_read(key: u8, text: Seq<u8>, value: u32)
    ensures
        param_value(seq![key, 0x3Du8] + text, key) == Some(value) <==> spells(text, value),
        param_value(text, key) is Some ==> text.len() > 2 && text[0] == key && text[1] == 0x3D,
{
    assert((seq![key, 0x3Du8] + text).skip(2) =~= text);
}

} // verus!
