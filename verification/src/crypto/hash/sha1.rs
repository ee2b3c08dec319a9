//! SHA-1, as in FIPS 180-4.

use vstd::prelude::*;

use super::padding::{lemma_padded_len, pad, padded, rotate_left_32, rotl32};
use crate::bytes::{be32, from_be32, u32_from_be, u32_to_be};

verus! {

/// The chaining value.
#[derive(Debug, Clone, Copy, PartialEq, Eq, Structural)]
pub struct Sha1State {
    pub a: u32,
    pub b: u32,
    pub c: u32,
    pub d: u32,
    pub e: u32,
}

/// The chaining value to begin with.
pub open spec fn sha1_initial() -> Sha1State {
    Sha1State {
        a: 0x67452301,
        b: 0xefcdab89,
        c: 0x98badcfe,
        d: 0x10325476,
        e: 0xc3d2e1f0,
    }
}

/// The first `n` words of the message schedule of a block.
pub open spec fn schedule(block: Seq<u8>, n: nat) -> Seq<u32>
    decreases n,
{
    if n == 0 {
        seq![]
    } else {
        let w = schedule(block, (n - 1) as nat);
        let i = n - 1;
        w.push(
            if i < 16 {
                from_be32(block, 4 * i)
            } else {
                rotl32(w[i - 3] ^ w[i - 8] ^ w[i - 14] ^ w[i - 16], 1)
            },
        )
    }
}

/// The logical function of round `i`.
pub open spec fn round_function(i: int, b: u32, c: u32, d: u32) -> u32 {
    if i < 20 {
        (b & c) | (!b & d)
    } else if i < 40 {
        b ^ c ^ d
    } else if i < 60 {
        (b & c) | (b & d) | (c & d)
    } else {
        b ^ c ^ d
    }
}

/// The constant of round `i`.
pub open spec fn round_constant(i: int) -> u32 {
    if i < 20 {
        0x5a827999
    } else if i < 40 {
        0x6ed9eba1
    } else if i < 60 {
        0x8f1bbcdc
    } else {
        0xca62c1d6
    }
}

/// One round.
pub open spec fn round(s: Sha1State, i: int, w: u32) -> Sha1State {
    Sha1State {
        a: rotl32(s.a, 5).wrapping_add(round_function(i, s.b, s.c, s.d)).wrapping_add(
            s.e,
        ).wrapping_add(round_constant(i)).wrapping_add(w),
        b: s.a,
        c: rotl32(s.b, 30),
        d: s.c,
        e: s.d,
    }
}

/// The first `n` rounds.
pub open spec fn rounds(s: Sha1State, w: Seq<u32>, n: nat) -> Sha1State
    decreases n,
{
    if n == 0 {
        s
    } else {
        round(rounds(s, w, (n - 1) as nat), n - 1, w[n - 1])
    }
}

/// The chaining value after one more block.
pub open spec fn sha1_block(s: Sha1State, block: Seq<u8>) -> Sha1State {
    let t = rounds(s, schedule(block, 80), 80);
    Sha1State {
        a: s.a.wrapping_add(t.a),
        b: s.b.wrapping_add(t.b),
        c: s.c.wrapping_add(t.c),
        d: s.d.wrapping_add(t.d),
        e: s.e.wrapping_add(t.e),
    }
}

/// The chaining value after the first `n` blocks.
pub open spec fn sha1_blocks(message: Seq<u8>, n: nat) -> Sha1State
    decreases n,
{
    if n == 0 {
        sha1_initial()
    } else {
        sha1_block(
            sha1_blocks(message, (n - 1) as nat),
            message.subrange(64 * (n - 1), 64 * (n as int)),
        )
    }
}

/// The SHA-1 digest of a message.
pub open spec fn sha1_digest(message: Seq<u8>) -> Seq<u8> {
    let p = padded(message);
    let s = sha1_blocks(p, p.len() / 64);
    be32(s.a) + be32(s.b) + be32(s.c) + be32(s.d) + be32(s.e)
}

/// The length of the schedule.
proof fn lemma_schedule_len(block: Seq<u8>, n: nat)
    ensures
        schedule(block, n).len() == n,
    decreases n,
{
    if n > 0 {
        lemma_schedule_len(block, (n - 1) as nat);
    }
}

/// Expands the block that begins at `offset`.
fn expand(msg: &Vec<u8>, offset: usize) -> (w: [u32; 80])
    requires
        offset + 64 <= msg@.len(),
    ensures
        w@ == schedule(msg@.subrange(offset as int, offset + 64), 80),
{
    let total: usize = msg.len();
    let mut w: [u32; 80] = [0;80];
    let ghost block = msg@.subrange(offset as int, offset + 64);
    let mut i: usize = 0;
    assert(w@.take(0) =~= schedule(block, 0));
    while i < 80
        invariant
            i <= 80,
            offset + 64 <= total == msg@.len(),
            block == msg@.subrange(offset as int, offset + 64),
            w@.take(i as int) == schedule(block, i as nat),
        decreases 80 - i,
    {
        let ghost before = w@;
        proof {
            lemma_schedule_len(block, i as nat);
            assert forall|j: int| 0 <= j < i implies #[trigger] before[j] == schedule(
                block,
                i as nat,
            )[j] by {
                assert(before.take(i as int)[j] == before[j]);
            }
        }
        w[i] = if i < 16 {
            u32_from_be(msg.as_slice(), offset + 4 * i)
        } else {
            rotate_left_32(w[i - 3] ^ w[i - 8] ^ w[i - 14] ^ w[i - 16], 1)
        };
        i = i + 1;
        assert(w@.take(i as int) =~= schedule(block, i as nat));
    }
    assert(w@.take(80) =~= w@);
    w
}

/// Adds the block that begins at `offset` to the chaining value.
fn add_block(state: Sha1State, msg: &Vec<u8>, offset: usize) -> (r: Sha1State)
    requires
        offset + 64 <= msg@.len(),
    ensures
        r == sha1_block(state, msg@.subrange(offset as int, offset + 64)),
{
    let w = expand(msg, offset);
    let mut s = state;
    let mut i: usize = 0;
    while i < 80
        invariant
            i <= 80,
            w@ == schedule(msg@.subrange(offset as int, offset + 64), 80),
            s == rounds(state, w@, i as nat),
        decreases 80 - i,
    {
        let (f, k): (u32, u32) = if i < 20 {
            ((s.b & s.c) | (!s.b & s.d), 0x5a827999)
        } else if i < 40 {
            (s.b ^ s.c ^ s.d, 0x6ed9eba1)
        } else if i < 60 {
            ((s.b & s.c) | (s.b & s.d) | (s.c & s.d), 0x8f1bbcdc)
        } else {
            (s.b ^ s.c ^ s.d, 0xca62c1d6)
        };
        let temp: u32 = rotate_left_32(s.a, 5).wrapping_add(f).wrapping_add(s.e).wrapping_add(
            k,
        ).wrapping_add(w[i]);
        s = Sha1State { a: temp, b: s.a, c: rotate_left_32(s.b, 30), d: s.c, e: s.d };
        i = i + 1;
    }
    Sha1State {
        a: state.a.wrapping_add(s.a),
        b: state.b.wrapping_add(s.b),
        c: state.c.wrapping_add(s.c),
        d: state.d.wrapping_add(s.d),
        e: state.e.wrapping_add(s.e),
    }
}

/// Computes the SHA-1 digest of `input`.
pub fn sha1(input: &[u8]) -> (r: [u8; 20])
    ensures
        r@ == sha1_digest(input@),
{
    let msg: Vec<u8> = pad(input);
    proof {
        lemma_padded_len(input@);
    }
    let mut state = Sha1State {
        a: 0x67452301,
        b: 0xefcdab89,
        c: 0x98badcfe,
        d: 0x10325476,
        e: 0xc3d2e1f0,
    };
    let total: usize = msg.len();
    let mut offset: usize = 0;
    let ghost mut n: nat = 0;
    while offset < total
        invariant
            msg@ == padded(input@),
            msg@.len() % 64 == 0,
            total == msg@.len(),
            offset == 64 * n,
            offset <= msg@.len(),
            state == sha1_blocks(msg@, n),
        decreases msg@.len() - offset,
    {
        state = add_block(state, &msg, offset);
        offset = offset + 64;
        proof {
            n = n + 1;
        }
    }
    let a = u32_to_be(state.a);
    let b = u32_to_be(state.b);
    let c = u32_to_be(state.c);
    let d = u32_to_be(state.d);
    let e = u32_to_be(state.e);
    let digest: [u8; 20] = [
        a[0], a[1], a[2], a[3],
        b[0], b[1], b[2], b[3],
        c[0], c[1], c[2], c[3],
        d[0], d[1], d[2], d[3],
        e[0], e[1], e[2], e[3],
    ];
    assert(digest@ =~= sha1_digest(input@));
    digest
}

/// The chaining value after `n` blocks, which are taken from the front.
pub open spec fn sha1_from(s: Sha1State, message: Seq<u8>, n: nat) -> Sha1State
    decreases n,
{
    if n == 0 {
        s
    } else {
        sha1_from(sha1_block(s, message.take(64)), message.skip(64), (n - 1) as nat)
    }
}

proof fn lemma_from_last(s: Sha1State, message: Seq<u8>, n: nat)
    requires
        64 * (n + 1) <= message.len(),
    ensures
        sha1_from(s, message, n + 1) == sha1_block(
            sha1_from(s, message, n),
            message.subrange(64 * (n as int), 64 * (n as int) + 64),
        ),
    decreases n,
{
    if n == 0 {
        assert(message.take(64) =~= message.subrange(0, 64));
        reveal_with_fuel(sha1_from, 2);
    } else {
        let next = sha1_block(s, message.take(64));
        lemma_from_last(next, message.skip(64), (n - 1) as nat);
        assert(message.skip(64).subrange(64 * (n - 1), 64 * (n - 1) + 64) =~= message.subrange(
            64 * (n as int),
            64 * (n as int) + 64,
        ));
    }
}

/// Every block is treated alike, wherever it stands: it turns the chaining value
/// that it finds into the next one.
pub proof fn blocks_are_treated_alike(message: Seq<u8>, n: nat)
    requires
        64 * n <= message.len(),
    ensures
        sha1_blocks(message, n) == sha1_from(sha1_initial(), message, n),
    decreases n,
{
    if n > 0 {
        blocks_are_treated_alike(message, (n - 1) as nat);
        lemma_from_last(sha1_initial(), message, (n - 1) as nat);
    }
}

/// The digest is the chaining value after all blocks of the padded message, each
/// word most significant byte first.
pub proof fn digest_is_the_last_chaining_value(message: Seq<u8>, s: Sha1State)
    requires
        s == sha1_from(sha1_initial(), padded(message), padded(message).len() / 64),
    ensures
        sha1_digest(message).len() == 20,
        sha1_digest(message).subrange(0, 4) == be32(s.a),
        sha1_digest(message).subrange(4, 8) == be32(s.b),
        sha1_digest(message).subrange(8, 12) == be32(s.c),
        sha1_digest(message).subrange(12, 16) == be32(s.d),
        sha1_digest(message).subrange(16, 20) == be32(s.e),
{
    lemma_padded_len(message);
    blocks_are_treated_alike(padded(message), padded(message).len() / 64);
    assert(sha1_digest(message).subrange(0, 4) =~= be32(s.a));
    assert(sha1_digest(message).subrange(4, 8) =~= be32(s.b));
    assert(sha1_digest(message).subrange(8, 12) =~= be32(s.c));
    assert(sha1_digest(message).subrange(12, 16) =~= be32(s.d));
    assert(sha1_digest(message).subrange(16, 20) =~= be32(s.e));
}

} // verus!
