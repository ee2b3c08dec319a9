//! Memory blocks: their compression, and their form as bytes.

use vstd::prelude::*;

use super::super::blake2b::{rotate_right_64, rotr64};
use super::{BLOCK_SIZE, BLOCK_WORDS};
use crate::bytes::{
    append, from_le64, le64_words, lemma_le64_round_trip, lemma_le64_words_at,
    lemma_le64_words_len, u64_from_le, u64_to_le,
};

verus! {

/// The low half of a word.
pub open spec fn low32(x: u64) -> u64 {
    x & 0xFFFF_FFFF
}

fn trunc32(x: u64) -> (r: u64)
    ensures
        r == low32(x),
{
    x & 0xFFFF_FFFF
}

/// Sum of two words and twice the product of their low halves.
pub open spec fn mul_add(a: u64, b: u64) -> u64 {
    a.wrapping_add(b).wrapping_add(2u64.wrapping_mul(low32(a).wrapping_mul(low32(b))))
}

fn multiply_add(a: u64, b: u64) -> (r: u64)
    ensures
        r == mul_add(a, b),
{
    a.wrapping_add(b).wrapping_add(2u64.wrapping_mul(trunc32(a).wrapping_mul(trunc32(b))))
}

/// Mixes four words of a block.
#[verifier::opaque]
pub open spec fn mix(v: Seq<u64>, a: int, b: int, c: int, d: int) -> Seq<u64> {
    let v1 = v.update(a, mul_add(v[a], v[b]));
    let v2 = v1.update(d, rotr64(v1[d] ^ v1[a], 32));
    let v3 = v2.update(c, mul_add(v2[c], v2[d]));
    let v4 = v3.update(b, rotr64(v3[b] ^ v3[c], 24));
    let v5 = v4.update(a, mul_add(v4[a], v4[b]));
    let v6 = v5.update(d, rotr64(v5[d] ^ v5[a], 16));
    let v7 = v6.update(c, mul_add(v6[c], v6[d]));
    v7.update(b, rotr64(v7[b] ^ v7[c], 63))
}

fn g_mix(v: &mut [u64; 128], a: usize, b: usize, c: usize, d: usize)
    requires
        a < 128,
        b < 128,
        c < 128,
        d < 128,
    ensures
        final(v)@ == mix(old(v)@, a as int, b as int, c as int, d as int),
{
    proof {
        reveal(mix);
    }
    v[a] = multiply_add(v[a], v[b]);
    v[d] = rotate_right_64(v[d] ^ v[a], 32);
    v[c] = multiply_add(v[c], v[d]);
    v[b] = rotate_right_64(v[b] ^ v[c], 24);
    v[a] = multiply_add(v[a], v[b]);
    v[d] = rotate_right_64(v[d] ^ v[a], 16);
    v[c] = multiply_add(v[c], v[d]);
    v[b] = rotate_right_64(v[b] ^ v[c], 63);
}

/// Permutes the sixteen words that stand `stride` apart, from `base` on: the
/// columns of the four by four square that they make, then its diagonals.
#[verifier::opaque]
pub open spec fn permuted(v: Seq<u64>, base: int, stride: int) -> Seq<u64> {
    let at = |k: int| base + k * stride;
    let v0 = mix(v, at(0), at(4), at(8), at(12));
    let v1 = mix(v0, at(1), at(5), at(9), at(13));
    let v2 = mix(v1, at(2), at(6), at(10), at(14));
    let v3 = mix(v2, at(3), at(7), at(11), at(15));
    let v4 = mix(v3, at(0), at(5), at(10), at(15));
    let v5 = mix(v4, at(1), at(6), at(11), at(12));
    let v6 = mix(v5, at(2), at(7), at(8), at(13));
    mix(v6, at(3), at(4), at(9), at(14))
}

/// Permutes a row.
fn p_row(v: &mut [u64; 128], row: usize)
    requires
        row < 8,
    ensures
        final(v)@ == permuted(old(v)@, 16 * row as int, 1),
{
    proof {
        reveal(permuted);
    }
    let b: usize = 16 * row;
    g_mix(v, b, b + 4, b + 8, b + 12);
    g_mix(v, b + 1, b + 5, b + 9, b + 13);
    g_mix(v, b + 2, b + 6, b + 10, b + 14);
    g_mix(v, b + 3, b + 7, b + 11, b + 15);
    g_mix(v, b, b + 5, b + 10, b + 15);
    g_mix(v, b + 1, b + 6, b + 11, b + 12);
    g_mix(v, b + 2, b + 7, b + 8, b + 13);
    g_mix(v, b + 3, b + 4, b + 9, b + 14);
}

/// Permutes a column.
fn p_col(v: &mut [u64; 128], col: usize)
    requires
        col < 8,
    ensures
        final(v)@ == permuted(old(v)@, col as int, 8),
{
    proof {
        reveal(permuted);
    }
    let b: usize = col;
    g_mix(v, b, b + 32, b + 64, b + 96);
    g_mix(v, b + 8, b + 40, b + 72, b + 104);
    g_mix(v, b + 16, b + 48, b + 80, b + 112);
    g_mix(v, b + 24, b + 56, b + 88, b + 120);
    g_mix(v, b, b + 40, b + 80, b + 120);
    g_mix(v, b + 8, b + 48, b + 88, b + 96);
    g_mix(v, b + 16, b + 56, b + 64, b + 104);
    g_mix(v, b + 24, b + 32, b + 72, b + 112);
}

/// The first `n` rows permuted.
pub open spec fn rows_permuted(v: Seq<u64>, n: nat) -> Seq<u64>
    decreases n,
{
    if n == 0 {
        v
    } else {
        permuted(rows_permuted(v, (n - 1) as nat), 16 * (n - 1), 1)
    }
}

/// The first `n` columns permuted.
pub open spec fn columns_permuted(v: Seq<u64>, n: nat) -> Seq<u64>
    decreases n,
{
    if n == 0 {
        v
    } else {
        permuted(columns_permuted(v, (n - 1) as nat), n - 1, 8)
    }
}

/// Two blocks, word by word.
pub open spec fn xored(x: Seq<u64>, y: Seq<u64>) -> Seq<u64> {
    Seq::new(128, |i: int| x[i] ^ y[i])
}

/// The compression of two blocks into one.
pub open spec fn compressed(x: Seq<u64>, y: Seq<u64>) -> Seq<u64> {
    let r = xored(x, y);
    xored(columns_permuted(rows_permuted(r, 8), 8), r)
}

pub fn xor_block(x: &[u64; 128], y: &[u64; 128]) -> (z: [u64; 128])
    ensures
        z@ == xored(x@, y@),
{
    let mut z: [u64; 128] = [0;128];
    let mut i: usize = 0;
    while i < 128
        invariant
            i <= 128,
            forall|k: int| 0 <= k < i ==> z@[k] == x@[k] ^ y@[k],
        decreases 128 - i,
    {
        z[i] = x[i] ^ y[i];
        i = i + 1;
    }
    assert(z@ =~= xored(x@, y@));
    z
}

/// Compresses two blocks into one.
pub fn compress(x: &[u64; 128], y: &[u64; 128]) -> (z: [u64; 128])
    ensures
        z@ == compressed(x@, y@),
{
    let r = xor_block(x, y);
    let mut z = r;
    let mut row: usize = 0;
    while row < 8
        invariant
            row <= 8,
            z@ == rows_permuted(r@, row as nat),
        decreases 8 - row,
    {
        p_row(&mut z, row);
        row = row + 1;
    }
    let ghost rows = z@;
    let mut col: usize = 0;
    while col < 8
        invariant
            col <= 8,
            z@ == columns_permuted(rows, col as nat),
        decreases 8 - col,
    {
        p_col(&mut z, col);
        col = col + 1;
    }
    xor_block(&z, &r)
}

/// A block from its bytes.
pub open spec fn block_of(bytes: Seq<u8>) -> Seq<u64> {
    Seq::new(128, |i: int| from_le64(bytes, 8 * i))
}

/// Reads a block from its bytes.
pub fn bytes_to_block(bytes: &[u8]) -> (r: [u64; 128])
    requires
        bytes@.len() >= BLOCK_SIZE,
    ensures
        r@ == block_of(bytes@),
{
    let mut block: [u64; 128] = [0;128];
    let mut i: usize = 0;
    while i < 128
        invariant
            i <= 128,
            bytes@.len() >= 1024,
            forall|k: int| 0 <= k < i ==> block@[k] == from_le64(bytes@, 8 * k),
        decreases 128 - i,
    {
        block[i] = u64_from_le(bytes, 8 * i);
        i = i + 1;
    }
    assert(block@ =~= block_of(bytes@));
    block
}

/// Writes a block as bytes.
pub fn block_to_bytes(block: &[u64; 128]) -> (r: Vec<u8>)
    ensures
        r@ == le64_words(block@),
        r@.len() == BLOCK_SIZE,
{
    let mut bytes: Vec<u8> = Vec::new();
    let mut i: usize = 0;
    assert(block@.take(0) =~= seq![]);
    while i < 128
        invariant
            i <= 128,
            bytes@ == le64_words(block@.take(i as int)),
        decreases 128 - i,
    {
        append(&mut bytes, &u64_to_le(block[i]));
        assert(block@.take(i + 1).drop_last() =~= block@.take(i as int));
        i = i + 1;
    }
    assert(block@.take(128) =~= block@);
    proof {
        lemma_le64_words_len(block@);
    }
    bytes
}

/// A block read from the bytes that it was written as is the same block.
pub proof fn block_round_trip(block: Seq<u64>)
    requires
        block.len() == BLOCK_WORDS,
    ensures
        block_of(le64_words(block)) == block,
{
    let bytes = le64_words(block);
    assert forall|i: int| 0 <= i < 128 implies block_of(bytes)[i] == block[i] by {
        lemma_le64_words_at(block, i);
        lemma_le64_round_trip(block[i]);
        let piece = bytes.subrange(8 * i, 8 * i + 8);
        assert(from_le64(piece, 0) == from_le64(bytes, 8 * i));
    }
    assert(block_of(bytes) =~= block);
}

} // verus!
