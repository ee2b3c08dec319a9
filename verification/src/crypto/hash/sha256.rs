//! SHA-256, as in FIPS 180-4.

use vstd::prelude::*;

use super::padding::{lemma_padded_len, pad, padded, rotate_left_32, rotl32};
use crate::bytes::{be32, from_be32, u32_from_be, u32_to_be};

verus! {

/// The constants of the rounds.
pub const SHA256_K: [u32; 64] = [
    0x428a2f98, 0x71374491, 0xb5c0fbcf, 0xe9b5dba5,
    0x3956c25b, 0x59f111f1, 0x923f82a4, 0xab1c5ed5,
    0xd807aa98, 0x12835b01, 0x243185be, 0x550c7dc3,
    0x72be5d74, 0x80deb1fe, 0x9bdc06a7, 0xc19bf174,
    0xe49b69c1, 0xefbe4786, 0x0fc19dc6, 0x240ca1cc,
    0x2de92c6f, 0x4a7484aa, 0x5cb0a9dc, 0x76f988da,
    0x983e5152, 0xa831c66d, 0xb00327c8, 0xbf597fc7,
    0xc6e00bf3, 0xd5a79147, 0x06ca6351, 0x14292967,
    0x27b70a85, 0x2e1b2138, 0x4d2c6dfc, 0x53380d13,
    0x650a7354, 0x766a0abb, 0x81c2c92e, 0x92722c85,
    0xa2bfe8a1, 0xa81a664b, 0xc24b8b70, 0xc76c51a3,
    0xd192e819, 0xd6990624, 0xf40e3585, 0x106aa070,
    0x19a4c116, 0x1e376c08, 0x2748774c, 0x34b0bcb5,
    0x391c0cb3, 0x4ed8aa4a, 0x5b9cca4f, 0x682e6ff3,
    0x748f82ee, 0x78a5636f, 0x84c87814, 0x8cc70208,
    0x90befffa, 0xa4506ceb, 0xbef9a3f7, 0xc67178f2,
];

/// The chaining value.
#[derive(Debug, Clone, Copy, PartialEq, Eq, Structural)]
pub struct Sha256State {
    pub a: u32,
    pub b: u32,
    pub c: u32,
    pub d: u32,
    pub e: u32,
    pub f: u32,
    pub g: u32,
    pub h: u32,
}

/// The chaining value to begin with.
pub open spec fn sha256_initial() -> Sha256State {
    Sha256State {
        a: 0x6a09e667,
        b: 0xbb67ae85,
        c: 0x3c6ef372,
        d: 0xa54ff53a,
        e: 0x510e527f,
        f: 0x9b05688c,
        g: 0x1f83d9ab,
        h: 0x5be0cd19,
    }
}

/// `x` rotated right by `n` bits.
pub open spec fn rotr32(x: u32, n: u32) -> u32 {
    rotl32(x, (32 - n) as u32)
}

pub open spec fn big_sigma0(x: u32) -> u32 {
    rotr32(x, 2) ^ rotr32(x, 13) ^ rotr32(x, 22)
}

pub open spec fn big_sigma1(x: u32) -> u32 {
    rotr32(x, 6) ^ rotr32(x, 11) ^ rotr32(x, 25)
}

pub open spec fn small_sigma0(x: u32) -> u32 {
    rotr32(x, 7) ^ rotr32(x, 18) ^ (x >> 3)
}

pub open spec fn small_sigma1(x: u32) -> u32 {
    rotr32(x, 17) ^ rotr32(x, 19) ^ (x >> 10)
}

/// The first `n` words of the message schedule of a block.
pub open spec fn schedule(block: Seq<u8>, n: nat) -> Seq<u32>
    decreases n,
{
    if n == 0 {
        seq![]
    } else {
        let w = schedule(block, (n - 1) as nat);
        let i = n - 1;
        w.push(
            if i < 16 {
                from_be32(block, 4 * i)
            } else {
                small_sigma1(w[i - 2]).wrapping_add(w[i - 7]).wrapping_add(
                    small_sigma0(w[i - 15]),
                ).wrapping_add(w[i - 16])
            },
        )
    }
}

/// One round.
pub open spec fn round(s: Sha256State, k: u32, w: u32) -> Sha256State {
    let t1 = s.h.wrapping_add(big_sigma1(s.e)).wrapping_add(
        (s.e & s.f) ^ (!s.e & s.g),
    ).wrapping_add(k).wrapping_add(w);
    let t2 = big_sigma0(s.a).wrapping_add((s.a & s.b) ^ (s.a & s.c) ^ (s.b & s.c));
    Sha256State {
        a: t1.wrapping_add(t2),
        b: s.a,
        c: s.b,
        d: s.c,
        e: s.d.wrapping_add(t1),
        f: s.e,
        g: s.f,
        h: s.g,
    }
}

/// The first `n` rounds.
pub open spec fn rounds(s: Sha256State, w: Seq<u32>, n: nat) -> Sha256State
    decreases n,
{
    if n == 0 {
        s
    } else {
        round(rounds(s, w, (n - 1) as nat), SHA256_K@[n - 1], w[n - 1])
    }
}

/// The chaining value after one more block.
pub open spec fn sha256_block(s: Sha256State, block: Seq<u8>) -> Sha256State {
    let t = rounds(s, schedule(block, 64), 64);
    Sha256State {
        a: s.a.wrapping_add(t.a),
        b: s.b.wrapping_add(t.b),
        c: s.c.wrapping_add(t.c),
        d: s.d.wrapping_add(t.d),
        e: s.e.wrapping_add(t.e),
        f: s.f.wrapping_add(t.f),
        g: s.g.wrapping_add(t.g),
        h: s.h.wrapping_add(t.h),
    }
}

/// The chaining value after the first `n` blocks.
pub open spec fn sha256_blocks(message: Seq<u8>, n: nat) -> Sha256State
    decreases n,
{
    if n == 0 {
        sha256_initial()
    } else {
        sha256_block(
            sha256_blocks(message, (n - 1) as nat),
            message.subrange(64 * (n - 1), 64 * (n as int)),
        )
    }
}

/// The SHA-256 digest of a message.
pub open spec fn sha256_digest(message: Seq<u8>) -> Seq<u8> {
    let p = padded(message);
    let s = sha256_blocks(p, p.len() / 64);
    be32(s.a) + be32(s.b) + be32(s.c) + be32(s.d) + be32(s.e) + be32(s.f) + be32(s.g) + be32(s.h)
}

proof fn lemma_schedule_len(block: Seq<u8>, n: nat)
    ensures
        schedule(block, n).len() == n,
    decreases n,
{
    if n > 0 {
        lemma_schedule_len(block, (n - 1) as nat);
    }
}

/// Rotates right.
fn rotate_right_32(x: u32, n: u32) -> (r: u32)
    requires
        0 < n < 32,
    ensures
        r == rotr32(x, n),
{
    rotate_left_32(x, 32 - n)
}

/// Expands the block that begins at `offset`.
fn expand(msg: &Vec<u8>, offset: usize) -> (w: [u32; 64])
    requires
        offset + 64 <= msg@.len(),
    ensures
        w@ == schedule(msg@.subrange(offset as int, offset + 64), 64),
{
    let total: usize = msg.len();
    let mut w: [u32; 64] = [0;64];
    let ghost block = msg@.subrange(offset as int, offset + 64);
    let mut i: usize = 0;
    assert(w@.take(0) =~= schedule(block, 0));
    while i < 64
        invariant
            i <= 64,
            offset + 64 <= total == msg@.len(),
            block == msg@.subrange(offset as int, offset + 64),
            w@.take(i as int) == schedule(block, i as nat),
        decreases 64 - i,
    {
        let ghost before = w@;
        proof {
            lemma_schedule_len(block, i as nat);
            assert forall|j: int| 0 <= j < i implies #[trigger] before[j] == schedule(
                block,
                i as nat,
            )[j] by {
                assert(before.take(i as int)[j] == before[j]);
            }
        }
        w[i] = if i < 16 {
            u32_from_be(msg.as_slice(), offset + 4 * i)
        } else {
            let x: u32 = w[i - 2];
            let y: u32 = w[i - 15];
            let s1: u32 = rotate_right_32(x, 17) ^ rotate_right_32(x, 19) ^ (x >> 10);
            let s0: u32 = rotate_right_32(y, 7) ^ rotate_right_32(y, 18) ^ (y >> 3);
            s1.wrapping_add(w[i - 7]).wrapping_add(s0).wrapping_add(w[i - 16])
        };
        i = i + 1;
        assert(w@.take(i as int) =~= schedule(block, i as nat));
    }
    assert(w@.take(64) =~= w@);
    w
}

/// Adds the block that begins at `offset` to the chaining value.
fn add_block(state: Sha256State, msg: &Vec<u8>, offset: usize) -> (r: Sha256State)
    requires
        offset + 64 <= msg@.len(),
    ensures
        r == sha256_block(state, msg@.subrange(offset as int, offset + 64)),
{
    let w = expand(msg, offset);
    let mut s = state;
    let mut i: usize = 0;
    while i < 64
        invariant
            i <= 64,
            w@ == schedule(msg@.subrange(offset as int, offset + 64), 64),
            s == rounds(state, w@, i as nat),
        decreases 64 - i,
    {
        let s1: u32 = rotate_right_32(s.e, 6) ^ rotate_right_32(s.e, 11) ^ rotate_right_32(
            s.e,
            25,
        );
        let s0: u32 = rotate_right_32(s.a, 2) ^ rotate_right_32(s.a, 13) ^ rotate_right_32(
            s.a,
            22,
        );
        let t1: u32 = s.h.wrapping_add(s1).wrapping_add((s.e & s.f) ^ (!s.e & s.g)).wrapping_add(
            SHA256_K[i],
        ).wrapping_add(w[i]);
        let t2: u32 = s0.wrapping_add((s.a & s.b) ^ (s.a & s.c) ^ (s.b & s.c));
        s = Sha256State {
            a: t1.wrapping_add(t2),
            b: s.a,
            c: s.b,
            d: s.c,
            e: s.d.wrapping_add(t1),
            f: s.e,
            g: s.f,
            h: s.g,
        };
        i = i + 1;
    }
    Sha256State {
        a: state.a.wrapping_add(s.a),
        b: state.b.wrapping_add(s.b),
        c: state.c.wrapping_add(s.c),
        d: state.d.wrapping_add(s.d),
        e: state.e.wrapping_add(s.e),
        f: state.f.wrapping_add(s.f),
        g: state.g.wrapping_add(s.g),
        h: state.h.wrapping_add(s.h),
    }
}

/// Computes the SHA-256 digest of `input`.
pub fn sha256(input: &[u8]) -> (r: [u8; 32])
    ensures
        r@ == sha256_digest(input@),
{
    let msg: Vec<u8> = pad(input);
    proof {
        lemma_padded_len(input@);
    }
    let mut state = Sha256State {
        a: 0x6a09e667,
        b: 0xbb67ae85,
        c: 0x3c6ef372,
        d: 0xa54ff53a,
        e: 0x510e527f,
        f: 0x9b05688c,
        g: 0x1f83d9ab,
        h: 0x5be0cd19,
    };
    let total: usize = msg.len();
    let mut offset: usize = 0;
    let ghost mut n: nat = 0;
    while offset < total
        invariant
            msg@ == padded(input@),
            msg@.len() % 64 == 0,
            total == msg@.len(),
            offset == 64 * n,
            offset <= msg@.len(),
            state == sha256_blocks(msg@, n),
        decreases msg@.len() - offset,
    {
        state = add_block(state, &msg, offset);
        offset = offset + 64;
        proof {
            n = n + 1;
        }
    }
    let a = u32_to_be(state.a);
    let b = u32_to_be(state.b);
    let c = u32_to_be(state.c);
    let d = u32_to_be(state.d);
    let e = u32_to_be(state.e);
    let f = u32_to_be(state.f);
    let g = u32_to_be(state.g);
    let h = u32_to_be(state.h);
    let digest: [u8; 32] = [
        a[0], a[1], a[2], a[3],
        b[0], b[1], b[2], b[3],
        c[0], c[1], c[2], c[3],
        d[0], d[1], d[2], d[3],
        e[0], e[1], e[2], e[3],
        f[0], f[1], f[2], f[3],
        g[0], g[1], g[2], g[3],
        h[0], h[1], h[2], h[3],
    ];
    assert(digest@ =~= sha256_digest(input@));
    digest
}

/// The chaining value after `n` blocks, which are taken from the front.
pub open spec fn sha256_from(s: Sha256State, message: Seq<u8>, n: nat) -> Sha256State
    decreases n,
{
    if n == 0 {
        s
    } else {
        sha256_from(sha256_block(s, message.take(64)), message.skip(64), (n - 1) as nat)
    }
}

proof fn lemma_from_last(s: Sha256State, message: Seq<u8>, n: nat)
    requires
        64 * (n + 1) <= message.len(),
    ensures
        sha256_from(s, message, n + 1) == sha256_block(
            sha256_from(s, message, n),
            message.subrange(64 * (n as int), 64 * (n as int) + 64),
        ),
    decreases n,
{
    if n == 0 {
        assert(message.take(64) =~= message.subrange(0, 64));
        reveal_with_fuel(sha256_from, 2);
    } else {
        let next = sha256_block(s, message.take(64));
        lemma_from_last(next, message.skip(64), (n - 1) as nat);
        assert(message.skip(64).subrange(64 * (n - 1), 64 * (n - 1) + 64) =~= message.subrange(
            64 * (n as int),
            64 * (n as int) + 64,
        ));
    }
}

/// Every block is treated alike, wherever it stands: it turns the chaining value
/// that it finds into the next one.
pub proof fn blocks_are_treated_alike(message: Seq<u8>, n: nat)
    requires
        64 * n <= message.len(),
    ensures
        sha256_blocks(message, n) == sha256_from(sha256_initial(), message, n),
    decreases n,
{
    if n > 0 {
        blocks_are_treated_alike(message, (n - 1) as nat);
        lemma_from_last(sha256_initial(), message, (n - 1) as nat);
    }
}

/// The digest is the chaining value after all blocks of the padded message, each
/// word most significant byte first.
pub proof fn digest_is_the_last_chaining_value(message: Seq<u8>, s: Sha256State)
    requires
        s == sha256_from(sha256_initial(), padded(message), padded(message).len() / 64),
    ensures
        sha256_digest(message).len() == 32,
        sha256_digest(message).subrange(0, 4) == be32(s.a),
        sha256_digest(message).subrange(4, 8) == be32(s.b),
        sha256_digest(message).subrange(8, 12) == be32(s.c),
        sha256_digest(message).subrange(12, 16) == be32(s.d),
        sha256_digest(message).subrange(16, 20) == be32(s.e),
        sha256_digest(message).subrange(20, 24) == be32(s.f),
        sha256_digest(message).subrange(24, 28) == be32(s.g),
        sha256_digest(message).subrange(28, 32) == be32(s.h),
{
    lemma_padded_len(message);
    blocks_are_treated_alike(padded(message), padded(message).len() / 64);
    assert(sha256_digest(message).subrange(0, 4) =~= be32(s.a));
    assert(sha256_digest(message).subrange(4, 8) =~= be32(s.b));
    assert(sha256_digest(message).subrange(8, 12) =~= be32(s.c));
    assert(sha256_digest(message).subrange(12, 16) =~= be32(s.d));
    assert(sha256_digest(message).subrange(16, 20) =~= be32(s.e));
    assert(sha256_digest(message).subrange(20, 24) =~= be32(s.f));
    assert(sha256_digest(message).subrange(24, 28) =~= be32(s.g));
    assert(sha256_digest(message).subrange(28, 32) =~= be32(s.h));
}

} // verus!
