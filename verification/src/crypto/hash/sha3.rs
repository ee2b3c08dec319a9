//! SHA3-512, as in FIPS 202.

use vstd::prelude::*;

use super::padding::{rotate_left_64, rotl64};
use crate::bytes::{from_le64, le64, le64_words, u64_from_le, u64_to_le};

verus! {

/// The constants of the rounds.
pub const KECCAK_RC: [u64; 24] = [
    0x0000000000000001, 0x0000000000008082, 0x800000000000808a,
    0x8000000080008000, 0x000000000000808b, 0x0000000080000001,
    0x8000000080008081, 0x8000000000008009, 0x000000000000008a,
    0x0000000000000088, 0x0000000080008009, 0x000000008000000a,
    0x000000008000808b, 0x800000000000008b, 0x8000000000008089,
    0x8000000000008003, 0x8000000000008002, 0x8000000000000080,
    0x000000000000800a, 0x800000008000000a, 0x8000000080008081,
    0x8000000000008080, 0x0000000080000001, 0x8000000080008008,
];

/// How far each lane is rotated.
pub const KECCAK_RHO: [u32; 25] = [
    0, 1, 62, 28, 27,
    36, 44, 6, 55, 20,
    3, 10, 43, 25, 39,
    41, 45, 15, 21, 8,
    18, 2, 61, 56, 14,
];

/// Where each lane is moved.
pub const KECCAK_PI: [usize; 25] = [
    0, 10, 20, 5, 15,
    16, 1, 11, 21, 6,
    7, 17, 2, 12, 22,
    23, 8, 18, 3, 13,
    14, 24, 9, 19, 4,
];

/// The number of bytes that are absorbed at a time.
pub const RATE: usize = 72;

/// The parity of column `x`.
pub open spec fn column_parity(s: Seq<u64>, x: int) -> u64 {
    s[x] ^ s[x + 5] ^ s[x + 10] ^ s[x + 15] ^ s[x + 20]
}

/// Every lane is combined with the parities of two columns.
pub open spec fn theta(s: Seq<u64>) -> Seq<u64> {
    Seq::new(
        25,
        |i: int|
            s[i] ^ (column_parity(s, (i % 5 + 4) % 5) ^ rotl64(
                column_parity(s, (i % 5 + 1) % 5),
                1,
            )),
    )
}

/// The lane that is moved to lane `j`.
pub open spec fn pi_source(j: int) -> int {
    (j % 5 + 3 * (j / 5)) % 5 + 5 * (j % 5)
}

/// Every lane is rotated and moved.
pub open spec fn rho_pi(s: Seq<u64>) -> Seq<u64> {
    Seq::new(25, |j: int| rotl64(s[pi_source(j)], KECCAK_RHO@[pi_source(j)]))
}

/// Every lane is combined with the next two of its row.
pub open spec fn chi(s: Seq<u64>) -> Seq<u64> {
    Seq::new(
        25,
        |i: int|
            s[i] ^ (!s[(i % 5 + 1) % 5 + 5 * (i / 5)] & s[(i % 5 + 2) % 5 + 5 * (i / 5)]),
    )
}

/// One round.
pub open spec fn keccak_round(s: Seq<u64>, rc: u64) -> Seq<u64> {
    let t = chi(rho_pi(theta(s)));
    t.update(0, t[0] ^ rc)
}

/// The first `n` rounds.
pub open spec fn keccak_rounds(s: Seq<u64>, n: nat) -> Seq<u64>
    decreases n,
{
    if n == 0 {
        s
    } else {
        keccak_round(keccak_rounds(s, (n - 1) as nat), KECCAK_RC@[n - 1])
    }
}

/// The permutation.
pub open spec fn keccak_f(s: Seq<u64>) -> Seq<u64> {
    keccak_rounds(s, 24)
}

/// The table of moves and its inverse agree on the first `n` lanes.
spec fn pi_agrees(n: nat) -> bool
    decreases n,
{
    n == 0 || (pi_agrees((n - 1) as nat) && {
        let i = n - 1;
        &&& KECCAK_PI@[i] < 25
        &&& KECCAK_PI@[i] == i / 5 + 5 * ((2 * (i % 5) + 3 * (i / 5)) % 5)
        &&& pi_source(KECCAK_PI@[i] as int) == i
        &&& 0 <= pi_source(i) < 25
        &&& KECCAK_PI@[pi_source(i)] == i
    })
}

proof fn lemma_pi_agrees(n: nat, i: int)
    requires
        pi_agrees(n),
        0 <= i < n,
    ensures
        KECCAK_PI@[i] < 25,
        KECCAK_PI@[i] == i / 5 + 5 * ((2 * (i % 5) + 3 * (i / 5)) % 5),
        pi_source(KECCAK_PI@[i] as int) == i,
        0 <= pi_source(i) < 25,
        KECCAK_PI@[pi_source(i)] == i,
    decreases n,
{
    if i < n - 1 {
        lemma_pi_agrees((n - 1) as nat, i);
    }
}

/// The table of moves is the permutation that takes lane (x, y) to lane
/// (y, 2x + 3y).
pub proof fn pi_is_a_permutation(i: int)
    requires
        0 <= i < 25,
    ensures
        KECCAK_PI@[i] < 25,
        KECCAK_PI@[i] == i / 5 + 5 * ((2 * (i % 5) + 3 * (i / 5)) % 5),
        pi_source(KECCAK_PI@[i] as int) == i,
        0 <= pi_source(i) < 25,
        KECCAK_PI@[pi_source(i)] == i,
{
    reveal_with_fuel(pi_agrees, 26);
    assert(pi_agrees(25));
    lemma_pi_agrees(25, i);
}

/// All rotations are shorter than a lane.
proof fn lemma_rho_small(i: int)
    requires
        0 <= i < 25,
    ensures
        KECCAK_RHO@[i] < 64,
{
}

fn theta_step(s: &[u64; 25]) -> (r: [u64; 25])
    ensures
        r@ == theta(s@),
{
    let mut c: [u64; 5] = [0;5];
    let mut x: usize = 0;
    while x < 5
        invariant
            x <= 5,
            forall|i: int| 0 <= i < x ==> c@[i] == column_parity(s@, i),
        decreases 5 - x,
    {
        c[x] = s[x] ^ s[x + 5] ^ s[x + 10] ^ s[x + 15] ^ s[x + 20];
        x = x + 1;
    }
    let mut r: [u64; 25] = [0;25];
    let mut i: usize = 0;
    while i < 25
        invariant
            i <= 25,
            forall|k: int| 0 <= k < 5 ==> c@[k] == column_parity(s@, k),
            forall|k: int| 0 <= k < i ==> r@[k] == theta(s@)[k],
        decreases 25 - i,
    {
        r[i] = s[i] ^ (c[(i % 5 + 4) % 5] ^ rotate_left_64(c[(i % 5 + 1) % 5], 1));
        i = i + 1;
    }
    assert(r@ =~= theta(s@));
    r
}

fn rho_pi_step(s: &[u64; 25]) -> (r: [u64; 25])
    ensures
        r@ == rho_pi(s@),
{
    let mut r: [u64; 25] = [0;25];
    let mut i: usize = 0;
    while i < 25
        invariant
            i <= 25,
            forall|j: int|
                0 <= j < 25 && pi_source(j) < i ==> #[trigger] r@[j] == rho_pi(s@)[j],
        decreases 25 - i,
    {
        proof {
            pi_is_a_permutation(i as int);
            lemma_rho_small(i as int);
        }
        let ghost before = r@;
        r[KECCAK_PI[i]] = rotate_left_64(s[i], KECCAK_RHO[i]);
        proof {
            assert forall|j: int| 0 <= j < 25 && pi_source(j) < i + 1 implies #[trigger] r@[j]
                == rho_pi(s@)[j] by {
                pi_is_a_permutation(j);
                if j != KECCAK_PI@[i as int] {
                    assert(r@[j] == before[j]);
                }
            }
        }
        i = i + 1;
    }
    proof {
        assert forall|j: int| 0 <= j < 25 implies #[trigger] r@[j] == rho_pi(s@)[j] by {
            pi_is_a_permutation(j);
        }
        assert(r@ =~= rho_pi(s@));
    }
    r
}

fn chi_step(s: &[u64; 25]) -> (r: [u64; 25])
    ensures
        r@ == chi(s@),
{
    let mut r: [u64; 25] = [0;25];
    let mut i: usize = 0;
    while i < 25
        invariant
            i <= 25,
            forall|k: int| 0 <= k < i ==> r@[k] == chi(s@)[k],
        decreases 25 - i,
    {
        r[i] = s[i] ^ (!s[(i % 5 + 1) % 5 + 5 * (i / 5)] & s[(i % 5 + 2) % 5 + 5 * (i / 5)]);
        i = i + 1;
    }
    assert(r@ =~= chi(s@));
    r
}

/// Permutes the state.
pub fn keccak_f1600(state: &mut [u64; 25])
    ensures
        final(state)@ == keccak_f(old(state)@),
{
    let mut round: usize = 0;
    while round < 24
        invariant
            round <= 24,
            state@ == keccak_rounds(old(state)@, round as nat),
        decreases 24 - round,
    {
        let a = theta_step(state);
        let b = rho_pi_step(&a);
        let c = chi_step(&b);
        *state = c;
        state[0] = state[0] ^ KECCAK_RC[round];
        round = round + 1;
    }
}

/// The state with a block of 72 bytes added.
pub open spec fn absorb(s: Seq<u64>, block: Seq<u8>) -> Seq<u64> {
    keccak_f(
        Seq::new(
            25,
            |i: int|
                if i < 9 {
                    s[i] ^ from_le64(block, 8 * i)
                } else {
                    s[i]
                },
        ),
    )
}

/// The state after the first `n` whole blocks.
pub open spec fn absorb_blocks(message: Seq<u8>, n: nat) -> Seq<u64>
    decreases n,
{
    if n == 0 {
        Seq::new(25, |i: int| 0u64)
    } else {
        absorb(
            absorb_blocks(message, (n - 1) as nat),
            message.subrange(72 * (n - 1), 72 * (n as int)),
        )
    }
}

/// What is left after the whole blocks, with the suffix and the padding.
pub open spec fn last_block(rest: Seq<u8>) -> Seq<u8> {
    Seq::new(
        72,
        |i: int|
            {
                let b: u8 = if i < rest.len() {
                    rest[i]
                } else if i == rest.len() {
                    0x06
                } else {
                    0
                };
                if i == 71 {
                    b | 0x80
                } else {
                    b
                }
            },
    )
}

/// The SHA3-512 digest of a message.
pub open spec fn sha3_512_digest(message: Seq<u8>) -> Seq<u8> {
    let n = message.len() / 72;
    let s = absorb(absorb_blocks(message, n), last_block(message.skip(72 * (n as int))));
    le64_words(s.take(8))
}

/// Adds the block that begins at `offset` to the state.
fn absorb_block(state: &mut [u64; 25], input: &[u8], offset: usize)
    requires
        offset + 72 <= input@.len(),
    ensures
        final(state)@ == absorb(
            old(state)@,
            input@.subrange(offset as int, offset + 72),
        ),
{
    let total: usize = input.len();
    let ghost block = input@.subrange(offset as int, offset + 72);
    let mut i: usize = 0;
    while i < 9
        invariant
            i <= 9,
            offset + 72 <= total == input@.len(),
            block == input@.subrange(offset as int, offset + 72),
            forall|k: int|
                0 <= k < i ==> state@[k] == old(state)@[k] ^ from_le64(block, 8 * k),
            forall|k: int| i <= k < 25 ==> state@[k] == old(state)@[k],
        decreases 9 - i,
    {
        state[i] = state[i] ^ u64_from_le(input, offset + 8 * i);
        i = i + 1;
    }
    let ghost mixed = state@;
    keccak_f1600(state);
    proof {
        assert(mixed =~= Seq::new(
            25,
            |i: int|
                if i < 9 {
                    old(state)@[i] ^ from_le64(block, 8 * i)
                } else {
                    old(state)@[i]
                },
        ));
    }
}

/// Computes the SHA3-512 digest of `input`.
pub fn sha3_512(input: &[u8]) -> (r: [u8; 64])
    ensures
        r@ == sha3_512_digest(input@),
{
    let mut state: [u64; 25] = [0;25];
    let total: usize = input.len();
    let mut offset: usize = 0;
    let ghost mut n: nat = 0;
    assert(state@ =~= absorb_blocks(input@, 0));
    while total - offset >= RATE
        invariant
            total == input@.len(),
            offset == 72 * n,
            offset <= total,
            state@ == absorb_blocks(input@, n),
        decreases total - offset,
    {
        absorb_block(&mut state, input, offset);
        offset = offset + RATE;
        proof {
            n = n + 1;
        }
    }
    let mut last: [u8; 72] = [0;72];
    let rest: usize = total - offset;
    let mut i: usize = 0;
    while i < rest
        invariant
            total == input@.len(),
            rest == total - offset,
            offset <= total,
            i <= rest < 72,
            forall|k: int| 0 <= k < i ==> last@[k] == input@[offset + k],
            forall|k: int| i <= k < 72 ==> last@[k] == 0,
        decreases rest - i,
    {
        last[i] = input[offset + i];
        i = i + 1;
    }
    last[rest] = 0x06;
    last[RATE - 1] = last[RATE - 1] | 0x80;
    assert(last@ =~= last_block(input@.skip(offset as int)));
    absorb_block(&mut state, &last, 0);
    assert(last@.subrange(0, 72) =~= last@);
    let ghost s = state@;
    let mut digest: [u8; 64] = [0;64];
    let mut w: usize = 0;
    while w < 8
        invariant
            w <= 8,
            s == state@,
            digest@.take(8 * w) == le64_words(s.take(w as int)),
        decreases 8 - w,
    {
        let word = u64_to_le(state[w]);
        let ghost before = digest@;
        let mut j: usize = 0;
        while j < 8
            invariant
                j <= 8,
                w < 8,
                word@ == le64(s[w as int]),
                before.len() == 64,
                forall|k: int| 0 <= k < 8 * w ==> digest@[k] == before[k],
                forall|k: int| 0 <= k < j ==> digest@[8 * w + k] == word@[k],
            decreases 8 - j,
        {
            digest[8 * w + j] = word[j];
            j = j + 1;
        }
        proof {
            assert(s.take(w + 1).drop_last() =~= s.take(w as int));
            assert(digest@.take(8 * w) =~= before.take(8 * w));
            assert(digest@.take(8 * (w + 1)) =~= digest@.take(8 * w) + le64(s[w as int]));
        }
        w = w + 1;
    }
    assert(digest@.take(64) =~= digest@);
    digest
}

/// The state after `n` blocks, which are taken from the front.
pub open spec fn absorbed_from(s: Seq<u64>, message: Seq<u8>, n: nat) -> Seq<u64>
    decreases n,
{
    if n == 0 {
        s
    } else {
        absorbed_from(absorb(s, message.take(72)), message.skip(72), (n - 1) as nat)
    }
}

proof fn lemma_from_last(s: Seq<u64>, message: Seq<u8>, n: nat)
    requires
        72 * (n + 1) <= message.len(),
    ensures
        absorbed_from(s, message, n + 1) == absorb(
            absorbed_from(s, message, n),
            message.subrange(72 * (n as int), 72 * (n as int) + 72),
        ),
    decreases n,
{
    if n == 0 {
        assert(message.take(72) =~= message.subrange(0, 72));
        reveal_with_fuel(absorbed_from, 2);
    } else {
        lemma_from_last(absorb(s, message.take(72)), message.skip(72), (n - 1) as nat);
        assert(message.skip(72).subrange(72 * (n - 1), 72 * (n - 1) + 72) =~= message.subrange(
            72 * (n as int),
            72 * (n as int) + 72,
        ));
    }
}

/// Every block is treated alike, wherever it stands: it is absorbed into the
/// state that it finds, which to begin with is all zeros.
pub proof fn blocks_are_treated_alike(message: Seq<u8>, n: nat, zeros: Seq<u64>)
    requires
        72 * n <= message.len(),
        zeros.len() == 25,
        forall|i: int| 0 <= i < 25 ==> #[trigger] zeros[i] == 0,
    ensures
        absorb_blocks(message, n) == absorbed_from(zeros, message, n),
    decreases n,
{
    if n > 0 {
        blocks_are_treated_alike(message, (n - 1) as nat, zeros);
        lemma_from_last(zeros, message, (n - 1) as nat);
    } else {
        assert(absorb_blocks(message, 0) =~= zeros);
    }
}

/// What is left after the whole blocks, `m` bytes, is filled up: two bits and
/// the first bit of the padding follow it, and the last bit of the padding ends
/// the block.
pub proof fn last_block_parts(rest: Seq<u8>)
    requires
        rest.len() < 72,
    ensures
        ({
            let b = last_block(rest);
            let m = rest.len() as int;
            &&& b.len() == 72
            &&& b.take(m) == rest
            &&& m < 71 ==> b[m] == 0x06 && b[71] == 0x80
            &&& m == 71 ==> b[71] == 0x86
            &&& forall|i: int| m < i < 71 ==> #[trigger] b[i] == 0
        }),
{
    assert(0u8 | 0x80 == 0x80 && 0x06u8 | 0x80 == 0x86) by (bit_vector);
    assert(last_block(rest).take(rest.len() as int) =~= rest);
}

/// A block of 72 bytes changes the first nine words before the state is
/// permuted, byte by byte, least significant first; the digest is the first
/// eight words at the end.
pub proof fn message_goes_through_the_sponge(message: Seq<u8>, zeros: Seq<u64>)
    requires
        zeros.len() == 25,
        forall|i: int| 0 <= i < 25 ==> #[trigger] zeros[i] == 0,
    ensures
        ({
            let n = message.len() / 72;
            let end = absorb(
                absorbed_from(zeros, message, n),
                last_block(message.skip(72 * (n as int))),
            );
            &&& sha3_512_digest(message) == le64_words(end.take(8))
            &&& end.len() == 25
        }),
{
    let n = message.len() / 72;
    blocks_are_treated_alike(message, n, zeros);
    lemma_rounds_len(
        Seq::new(
            25,
            |i: int|
                if i < 9 {
                    absorb_blocks(message, n)[i] ^ from_le64(
                        last_block(message.skip(72 * (n as int))),
                        8 * i,
                    )
                } else {
                    absorb_blocks(message, n)[i]
                },
        ),
        24,
    );
}

proof fn lemma_rounds_len(s: Seq<u64>, n: nat)
    requires
        s.len() == 25,
    ensures
        keccak_rounds(s, n).len() == 25,
    decreases n,
{
    if n > 0 {
        lemma_rounds_len(s, (n - 1) as nat);
    }
}

} // verus!
