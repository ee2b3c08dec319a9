//! Fixed-width integers as byte sequences, in both byte orders.

use vstd::prelude::*;

verus! {

/// The four bytes of `x`, least significant first.
pub open spec fn le32(x: u32) -> Seq<u8> {
    seq![x as u8, (x >> 8) as u8, (x >> 16) as u8, (x >> 24) as u8]
}

/// The eight bytes of `x`, least significant first.
pub open spec fn le64(x: u64) -> Seq<u8> {
    seq![
        x as u8,
        (x >> 8) as u8,
        (x >> 16) as u8,
        (x >> 24) as u8,
        (x >> 32) as u8,
        (x >> 40) as u8,
        (x >> 48) as u8,
        (x >> 56) as u8,
    ]
}

/// The four bytes of `x`, most significant first.
pub open spec fn be32(x: u32) -> Seq<u8> {
    seq![(x >> 24) as u8, (x >> 16) as u8, (x >> 8) as u8, x as u8]
}

/// The eight bytes of `x`, most significant first.
pub open spec fn be64(x: u64) -> Seq<u8> {
    seq![
        (x >> 56) as u8,
        (x >> 48) as u8,
        (x >> 40) as u8,
        (x >> 32) as u8,
        (x >> 24) as u8,
        (x >> 16) as u8,
        (x >> 8) as u8,
        x as u8,
    ]
}

/// The number whose bytes, least significant first, are the two at `i`.
pub open spec fn from_le16(s: Seq<u8>, i: int) -> u16 {
    s[i] as u16 | (s[i + 1] as u16) << 8
}

/// The number whose bytes, least significant first, are the four at `i`.
pub open spec fn from_le32(s: Seq<u8>, i: int) -> u32 {
    s[i] as u32 | (s[i + 1] as u32) << 8 | (s[i + 2] as u32) << 16 | (s[i + 3] as u32) << 24
}

/// The number whose bytes, least significant first, are the eight at `i`.
pub open spec fn from_le64(s: Seq<u8>, i: int) -> u64 {
    s[i] as u64 | (s[i + 1] as u64) << 8 | (s[i + 2] as u64) << 16 | (s[i + 3] as u64) << 24 | (s[i
        + 4] as u64) << 32 | (s[i + 5] as u64) << 40 | (s[i + 6] as u64) << 48 | (s[i + 7] as u64)
        << 56
}

/// The number whose bytes, most significant first, are the four at `i`.
pub open spec fn from_be32(s: Seq<u8>, i: int) -> u32 {
    (s[i] as u32) << 24 | (s[i + 1] as u32) << 16 | (s[i + 2] as u32) << 8 | s[i + 3] as u32
}

/// The bytes of each word in turn, least significant first.
pub open spec fn le64_words(words: Seq<u64>) -> Seq<u8>
    decreases words.len(),
{
    if words.len() == 0 {
        seq![]
    } else {
        le64_words(words.drop_last()) + le64(words.last())
    }
}

pub proof fn lemma_le64_words_len(words: Seq<u64>)
    ensures
        le64_words(words).len() == 8 * words.len(),
    decreases words.len(),
{
    if words.len() > 0 {
        lemma_le64_words_len(words.drop_last());
    }
}

/// The bytes of word `w` stand at `8 * w`.
pub proof fn lemma_le64_words_at(words: Seq<u64>, w: int)
    requires
        0 <= w < words.len(),
    ensures
        le64_words(words).len() == 8 * words.len(),
        le64_words(words).subrange(8 * w, 8 * w + 8) == le64(words[w]),
    decreases words.len(),
{
    lemma_le64_words_len(words);
    lemma_le64_words_len(words.drop_last());
    if w == words.len() - 1 {
        assert(le64_words(words).subrange(8 * w, 8 * w + 8) =~= le64(words.last()));
    } else {
        lemma_le64_words_at(words.drop_last(), w);
        assert(le64_words(words).subrange(8 * w, 8 * w + 8) =~= le64_words(
            words.drop_last(),
        ).subrange(8 * w, 8 * w + 8));
    }
}

/// Reading the bytes of a number gives the number back.
pub proof fn lemma_le64_round_trip(x: u64)
    ensures
        from_le64(le64(x), 0) == x,
{
    assert((x as u8) as u64 | ((x >> 8) as u8 as u64) << 8 | ((x >> 16) as u8 as u64) << 16 | ((x
        >> 24) as u8 as u64) << 24 | ((x >> 32) as u8 as u64) << 32 | ((x >> 40) as u8 as u64) << 40
        | ((x >> 48) as u8 as u64) << 48 | ((x >> 56) as u8 as u64) << 56 == x) by (bit_vector);
}

pub fn u32_to_le(x: u32) -> (r: [u8; 4])
    ensures
        r@ == le32(x),
{
    let r: [u8; 4] = [x as u8, (x >> 8) as u8, (x >> 16) as u8, (x >> 24) as u8];
    assert(r@ =~= le32(x));
    r
}

pub fn u64_to_le(x: u64) -> (r: [u8; 8])
    ensures
        r@ == le64(x),
{
    let r: [u8; 8] = [
        x as u8,
        (x >> 8) as u8,
        (x >> 16) as u8,
        (x >> 24) as u8,
        (x >> 32) as u8,
        (x >> 40) as u8,
        (x >> 48) as u8,
        (x >> 56) as u8,
    ];
    assert(r@ =~= le64(x));
    r
}

pub fn u32_to_be(x: u32) -> (r: [u8; 4])
    ensures
        r@ == be32(x),
{
    let r: [u8; 4] = [(x >> 24) as u8, (x >> 16) as u8, (x >> 8) as u8, x as u8];
    assert(r@ =~= be32(x));
    r
}

pub fn u64_to_be(x: u64) -> (r: [u8; 8])
    ensures
        r@ == be64(x),
{
    let r: [u8; 8] = [
        (x >> 56) as u8,
        (x >> 48) as u8,
        (x >> 40) as u8,
        (x >> 32) as u8,
        (x >> 24) as u8,
        (x >> 16) as u8,
        (x >> 8) as u8,
        x as u8,
    ];
    assert(r@ =~= be64(x));
    r
}

pub fn u16_from_le(s: &[u8], i: usize) -> (r: u16)
    requires
        i + 2 <= s@.len(),
    ensures
        r == from_le16(s@, i as int),
{
    s[i] as u16 | (s[i + 1] as u16) << 8
}

pub fn u32_from_le(s: &[u8], i: usize) -> (r: u32)
    requires
        i + 4 <= s@.len(),
    ensures
        r == from_le32(s@, i as int),
{
    s[i] as u32 | (s[i + 1] as u32) << 8 | (s[i + 2] as u32) << 16 | (s[i + 3] as u32) << 24
}

pub fn u64_from_le(s: &[u8], i: usize) -> (r: u64)
    requires
        i + 8 <= s@.len(),
    ensures
        r == from_le64(s@, i as int),
{
    s[i] as u64 | (s[i + 1] as u64) << 8 | (s[i + 2] as u64) << 16 | (s[i + 3] as u64) << 24 | (s[i
        + 4] as u64) << 32 | (s[i + 5] as u64) << 40 | (s[i + 6] as u64) << 48 | (s[i + 7] as u64)
        << 56
}

pub fn u32_from_be(s: &[u8], i: usize) -> (r: u32)
    requires
        i + 4 <= s@.len(),
    ensures
        r == from_be32(s@, i as int),
{
    (s[i] as u32) << 24 | (s[i + 1] as u32) << 16 | (s[i + 2] as u32) << 8 | s[i + 3] as u32
}

/// Appends the bytes of `src` to `dst`.
pub fn append(dst: &mut Vec<u8>, src: &[u8])
    ensures
        final(dst)@ == old(dst)@ + src@,
{
    let mut i: usize = 0;
    while i < src.len()
        invariant
            i <= src@.len(),
            dst@ == old(dst)@ + src@.take(i as int),
        decreases src@.len() - i,
    {
        dst.push(src[i]);
        assert(src@.take(i + 1) =~= src@.take(i as int).push(src@[i as int]));
        i = i + 1;
        assert(dst@ =~= old(dst)@ + src@.take(i as int));
    }
    assert(src@.take(i as int) =~= src@);
}

/// The bytes of `src` from `from` up to, not including, `to`.
pub fn copy_range(src: &[u8], from: usize, to: usize) -> (r: Vec<u8>)
    requires
        from <= to <= src@.len(),
    ensures
        r@ == src@.subrange(from as int, to as int),
{
    let mut r: Vec<u8> = Vec::new();
    let mut i: usize = from;
    while i < to
        invariant
            from <= i <= to <= src@.len(),
            r@ == src@.subrange(from as int, i as int),
        decreases to - i,
    {
        r.push(src[i]);
        i = i + 1;
        assert(r@ =~= src@.subrange(from as int, i as int));
    }
    r
}

/// Whether two byte slices hold the same bytes.
pub fn bytes_eq(a: &[u8], b: &[u8]) -> (r: bool)
    ensures
        r == (a@ == b@),
{
    if a.len() != b.len() {
        return false;
    }
    let mut i: usize = 0;
    while i < a.len()
        invariant
            i <= a@.len() == b@.len(),
            forall|j: int| 0 <= j < i ==> a@[j] == b@[j],
        decreases a@.len() - i,
    {
        if a[i] != b[i] {
            return false;
        }
        i = i + 1;
    }
    assert(a@ =~= b@);
    true
}

/// A difference is not lost.
proof fn lemma_difference(diff: u8, x: u8, y: u8)
    ensures
        (diff | (x ^ y)) == 0 <==> diff == 0 && x == y,
{
    assert((diff | (x ^ y)) == 0 <==> diff == 0 && x == y) by (bit_vector);
}

/// Whether two byte slices hold the same bytes. All bytes are looked at,
/// wherever the first difference is.
pub fn constant_time_eq(a: &[u8], b: &[u8]) -> (r: bool)
    ensures
        r == (a@ == b@),
{
    if a.len() != b.len() {
        return false;
    }
    let mut diff: u8 = 0;
    let mut i: usize = 0;
    assert(a@.take(0) =~= b@.take(0));
    while i < a.len()
        invariant
            i <= a@.len() == b@.len(),
            diff == 0 <==> a@.take(i as int) == b@.take(i as int),
        decreases a@.len() - i,
    {
        proof {
            lemma_difference(diff, a@[i as int], b@[i as int]);
            assert(a@.take(i + 1) =~= a@.take(i as int).push(a@[i as int]));
            assert(b@.take(i + 1) =~= b@.take(i as int).push(b@[i as int]));
            if a@.take(i + 1) == b@.take(i + 1) {
                assert(a@.take(i + 1).drop_last() =~= a@.take(i as int));
                assert(b@.take(i + 1).drop_last() =~= b@.take(i as int));
                assert(a@.take(i + 1)[i as int] == b@.take(i + 1)[i as int]);
            }
        }
        diff = diff | (a[i] ^ b[i]);
        i = i + 1;
    }
    assert(a@.take(i as int) =~= a@);
    assert(b@.take(i as int) =~= b@);
    diff == 0
}

/// The bytes of a number are its digits to the base 256: four of them, the first
/// or the last of which counts ones.
pub proof fn bytes_are_digits_32(x: u32)
    ensures
        le32(x).len() == 4,
        x == (le32(x)[0] as int) + 0x100 * (le32(x)[1] as int) + 0x10000 * (le32(x)[2] as int) + 0x1000000 * (le32(x)[3] as int),
        be32(x).len() == 4,
        x == (be32(x)[3] as int) + 0x100 * (be32(x)[2] as int) + 0x10000 * (be32(x)[1] as int) + 0x1000000 * (be32(x)[0] as int),
{
    assert((x as u8) as u32 + 0x100 * ((x >> 8) as u8 as u32) + 0x1_0000 * ((x >> 16) as u8 as u32)
        + 0x100_0000 * ((x >> 24) as u8 as u32) == x) by (bit_vector);
}

/// So are the eight bytes of a longer number.
pub proof fn bytes_are_digits_64(x: u64)
    ensures
        le64(x).len() == 8,
        x == (le64(x)[0] as int) + 0x100 * (le64(x)[1] as int) + 0x10000 * (le64(x)[2] as int) + 0x1000000 * (le64(x)[3] as int) + 0x100000000 * (le64(x)[4] as int) + 0x10000000000 * (le64(x)[5] as int) + 0x1000000000000 * (le64(x)[6] as int) + 0x100000000000000 * (le64(x)[7] as int),
        be64(x).len() == 8,
        x == (be64(x)[7] as int) + 0x100 * (be64(x)[6] as int) + 0x10000 * (be64(x)[5] as int) + 0x1000000 * (be64(x)[4] as int) + 0x100000000 * (be64(x)[3] as int) + 0x10000000000 * (be64(x)[2] as int) + 0x1000000000000 * (be64(x)[1] as int) + 0x100000000000000 * (be64(x)[0] as int),
{
    assert((x as u8) as u64 + 0x100 * ((x >> 8) as u8 as u64) + 0x1_0000 * ((x >> 16) as u8 as u64)
        + 0x100_0000 * ((x >> 24) as u8 as u64) + 0x1_0000_0000 * ((x >> 32) as u8 as u64)
        + 0x100_0000_0000 * ((x >> 40) as u8 as u64) + 0x1_0000_0000_0000 * ((x
        >> 48) as u8 as u64) + 0x100_0000_0000_0000 * ((x >> 56) as u8 as u64) == x)
        by (bit_vector);
}

/// A number that is read from bytes has these digits to the base 256.
pub proof fn digits_are_read(s: Seq<u8>, i: int)
    ensures
        from_le16(s, i) == s[i] + 0x100 * s[i + 1],
        from_le32(s, i) == s[i] + 0x100 * s[i + 1] + 0x1_0000 * s[i + 2] + 0x100_0000 * s[i + 3],
        from_be32(s, i) == 0x100_0000 * s[i] + 0x1_0000 * s[i + 1] + 0x100 * s[i + 2] + s[i + 3],
        from_le64(s, i) == s[i] + 0x100 * s[i + 1] + 0x1_0000 * s[i + 2] + 0x100_0000 * s[i + 3]
            + 0x1_0000_0000 * s[i + 4] + 0x100_0000_0000 * s[i + 5] + 0x1_0000_0000_0000 * s[i + 6]
            + 0x100_0000_0000_0000 * s[i + 7],
{
    let (a, b, c, d) = (s[i], s[i + 1], s[i + 2], s[i + 3]);
    let (e, f, g, h) = (s[i + 4], s[i + 5], s[i + 6], s[i + 7]);
    assert({
        &&& (a as u16 | (b as u16) << 8) == a as u16 + 0x100 * (b as u16)
        &&& (a as u32 | (b as u32) << 8 | (c as u32) << 16 | (d as u32) << 24) == a as u32 + 0x100
            * (b as u32) + 0x1_0000 * (c as u32) + 0x100_0000 * (d as u32)
        &&& ((a as u32) << 24 | (b as u32) << 16 | (c as u32) << 8 | d as u32) == 0x100_0000
            * (a as u32) + 0x1_0000 * (b as u32) + 0x100 * (c as u32) + d as u32
        &&& (a as u64 | (b as u64) << 8 | (c as u64) << 16 | (d as u64) << 24 | (e as u64) << 32 | (
        f as u64) << 40 | (g as u64) << 48 | (h as u64) << 56) == a as u64 + 0x100 * (b as u64)
            + 0x1_0000 * (c as u64) + 0x100_0000 * (d as u64) + 0x1_0000_0000 * (e as u64)
            + 0x100_0000_0000 * (f as u64) + 0x1_0000_0000_0000 * (g as u64) + 0x100_0000_0000_0000
            * (h as u64)
    }) by (bit_vector);
}

/// The bytes of words in turn are those of the first words, and then those of
/// the others.
pub proof fn words_are_written_in_turn(first: Seq<u64>, second: Seq<u64>)
    ensures
        le64_words(first + second) == le64_words(first) + le64_words(second),
        le64_words(first).len() == 8 * first.len(),
        first.len() == 1 ==> le64_words(first) == le64(first[0]),
    decreases second.len(),
{
    lemma_le64_words_len(first);
    if first.len() == 1 {
        assert(first.drop_last() =~= seq![]);
        assert(le64_words(first) =~= le64(first[0]));
    }
    if second.len() == 0 {
        assert(first + second =~= first);
        assert(le64_words(first) + le64_words(second) =~= le64_words(first));
    } else {
        words_are_written_in_turn(first, second.drop_last());
        assert((first + second).drop_last() =~= first + second.drop_last());
        assert((first + second).last() == second.last());
        assert(le64_words(first + second) =~= le64_words(first) + le64_words(second));
    }
}

} // verus!
