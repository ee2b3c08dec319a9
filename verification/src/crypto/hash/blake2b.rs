//! BLAKE2b, as in RFC 7693.

use vstd::prelude::*;

use super::padding::{rotate_left_64, rotl64};
use crate::bytes::{
    append, copy_range, from_le64, le32, le64_words, lemma_le64_words_len, u32_to_le,
    u64_from_le, u64_to_le,
};

verus! {

/// The words to begin with.
pub const IV: [u64; 8] = [
    0x6a09e667f3bcc908, 0xbb67ae8584caa73b, 0x3c6ef372fe94f82b,
    0xa54ff53a5f1d36f1, 0x510e527fade682d1, 0x9b05688c2b3e6c1f,
    0x1f83d9abfb41bd6b, 0x5be0cd19137e2179,
];

/// The order of the message words, sixteen for each of the twelve rounds.
pub const SIGMA: [[usize; 16]; 12] = [
    [0, 1, 2, 3, 4, 5, 6, 7, 8, 9, 10, 11, 12, 13, 14, 15],
    [14, 10, 4, 8, 9, 15, 13, 6, 1, 12, 0, 2, 11, 7, 5, 3],
    [11, 8, 12, 0, 5, 2, 15, 13, 10, 14, 3, 6, 7, 1, 9, 4],
    [7, 9, 3, 1, 13, 12, 11, 14, 2, 6, 5, 10, 4, 0, 15, 8],
    [9, 0, 5, 7, 2, 4, 10, 15, 14, 1, 11, 12, 6, 8, 3, 13],
    [2, 12, 6, 10, 0, 11, 8, 3, 4, 13, 7, 5, 15, 14, 1, 9],
    [12, 5, 1, 15, 14, 13, 4, 10, 0, 7, 6, 3, 9, 2, 8, 11],
    [13, 11, 7, 14, 12, 1, 3, 9, 5, 0, 15, 4, 8, 6, 2, 10],
    [6, 15, 14, 9, 11, 3, 0, 8, 12, 2, 13, 7, 1, 4, 10, 5],
    [10, 2, 8, 4, 7, 6, 1, 5, 15, 11, 9, 14, 3, 12, 13, 0],
    [0, 1, 2, 3, 4, 5, 6, 7, 8, 9, 10, 11, 12, 13, 14, 15],
    [14, 10, 4, 8, 9, 15, 13, 6, 1, 12, 0, 2, 11, 7, 5, 3],
];

pub const MAX_KEY_LEN: usize = 64;

pub const MAX_OUT_LEN: usize = 64;

pub const BLOCK_SIZE: usize = 128;

/// `x` rotated right by `n` bits.
pub open spec fn rotr64(x: u64, n: u32) -> u64 {
    rotl64(x, (64 - n) as u32)
}

/// Rotates right.
pub fn rotate_right_64(x: u64, n: u32) -> (r: u64)
    requires
        0 < n < 64,
    ensures
        r == rotr64(x, n),
{
    rotate_left_64(x, 64 - n)
}

/// Mixes two words into four places of the working vector.
#[verifier::opaque]
pub open spec fn mix(
    v: Seq<u64>,
    a: int,
    b: int,
    c: int,
    d: int,
    x: u64,
    y: u64,
) -> Seq<u64> {
    let v1 = v.update(a, v[a].wrapping_add(v[b]).wrapping_add(x));
    let v2 = v1.update(d, rotr64(v1[d] ^ v1[a], 32));
    let v3 = v2.update(c, v2[c].wrapping_add(v2[d]));
    let v4 = v3.update(b, rotr64(v3[b] ^ v3[c], 24));
    let v5 = v4.update(a, v4[a].wrapping_add(v4[b]).wrapping_add(y));
    let v6 = v5.update(d, rotr64(v5[d] ^ v5[a], 16));
    let v7 = v6.update(c, v6[c].wrapping_add(v6[d]));
    v7.update(b, rotr64(v7[b] ^ v7[c], 63))
}

/// The `i`-th message word of round `r`.
pub open spec fn word(m: Seq<u64>, r: int, i: int) -> u64 {
    m[SIGMA@[r]@[i] as int]
}

/// The columns, then the diagonals.
#[verifier::opaque]
pub open spec fn mix_round(v: Seq<u64>, m: Seq<u64>, r: int) -> Seq<u64> {
    let v0 = mix(v, 0, 4, 8, 12, word(m, r, 0), word(m, r, 1));
    let v1 = mix(v0, 1, 5, 9, 13, word(m, r, 2), word(m, r, 3));
    let v2 = mix(v1, 2, 6, 10, 14, word(m, r, 4), word(m, r, 5));
    let v3 = mix(v2, 3, 7, 11, 15, word(m, r, 6), word(m, r, 7));
    let v4 = mix(v3, 0, 5, 10, 15, word(m, r, 8), word(m, r, 9));
    let v5 = mix(v4, 1, 6, 11, 12, word(m, r, 10), word(m, r, 11));
    let v6 = mix(v5, 2, 7, 8, 13, word(m, r, 12), word(m, r, 13));
    mix(v6, 3, 4, 9, 14, word(m, r, 14), word(m, r, 15))
}

/// The first `n` rounds.
pub open spec fn mix_rounds(v: Seq<u64>, m: Seq<u64>, n: nat) -> Seq<u64>
    decreases n,
{
    if n == 0 {
        v
    } else {
        mix_round(mix_rounds(v, m, (n - 1) as nat), m, n - 1)
    }
}

/// The words of a block.
pub open spec fn block_words(block: Seq<u8>) -> Seq<u64> {
    Seq::new(16, |i: int| from_le64(block, 8 * i))
}

/// The working vector to begin with: `count` is the number of bytes so far,
/// and the last block is marked.
pub open spec fn working_vector(h: Seq<u64>, count: nat, last: bool) -> Seq<u64> {
    Seq::new(
        16,
        |i: int|
            if i < 8 {
                h[i]
            } else if i == 12 {
                IV@[4] ^ low_word(count)
            } else if i == 13 {
                IV@[5] ^ high_word(count)
            } else if i == 14 && last {
                IV@[6] ^ u64::MAX
            } else {
                IV@[i - 8]
            },
    )
}

pub open spec fn low_word(count: nat) -> u64 {
    (count % 0x1_0000_0000_0000_0000) as u64
}

pub open spec fn high_word(count: nat) -> u64 {
    ((count / 0x1_0000_0000_0000_0000) % 0x1_0000_0000_0000_0000) as u64
}

/// The chaining value after one more block.
pub open spec fn compressed(h: Seq<u64>, block: Seq<u8>, count: nat, last: bool) -> Seq<u64> {
    let v = mix_rounds(working_vector(h, count, last), block_words(block), 12);
    Seq::new(8, |i: int| h[i] ^ (v[i] ^ v[i + 8]))
}

/// The chaining value to begin with.
pub open spec fn initial(out_len: nat, key_len: nat) -> Seq<u64> {
    IV@.update(
        0,
        IV@[0] ^ (out_len as u64 | (key_len as u64) << 8 | 1u64 << 16 | 1u64 << 24),
    )
}

/// The chaining value after the first `n` blocks, none of which is the last.
pub open spec fn chain(start: Seq<u64>, data: Seq<u8>, n: nat) -> Seq<u64>
    decreases n,
{
    if n == 0 {
        start
    } else {
        compressed(
            chain(start, data, (n - 1) as nat),
            data.subrange(128 * (n - 1), 128 * (n as int)),
            128 * n,
            false,
        )
    }
}

/// How many blocks come before the last one.
pub open spec fn blocks_before_last(len: nat) -> nat {
    if len == 0 {
        0
    } else {
        ((len - 1) / 128) as nat
    }
}

/// Bytes filled up with zeros to `n`.
pub open spec fn zero_padded(bytes: Seq<u8>, n: nat) -> Seq<u8> {
    Seq::new(
        n,
        |i: int|
            if i < bytes.len() {
                bytes[i]
            } else {
                0
            },
    )
}

/// The chaining value at the end.
pub open spec fn finish(start: Seq<u64>, data: Seq<u8>) -> Seq<u64> {
    let n = blocks_before_last(data.len());
    compressed(
        chain(start, data, n),
        zero_padded(data.skip(128 * (n as int)), 128),
        data.len(),
        true,
    )
}

/// A key, if there is one, is hashed before the data, in a block of its own.
pub open spec fn keyed(key: Option<Seq<u8>>, data: Seq<u8>) -> Seq<u8> {
    match key {
        Some(k) => zero_padded(k, 128) + data,
        None => data,
    }
}

pub open spec fn key_len(key: Option<Seq<u8>>) -> nat {
    match key {
        Some(k) => k.len(),
        None => 0,
    }
}

/// The BLAKE2b digest of data, with a key or without.
pub open spec fn blake2b_digest(data: Seq<u8>, out_len: nat, key: Option<Seq<u8>>) -> Seq<u8> {
    le64_words(finish(initial(out_len, key_len(key)), keyed(key, data))).take(out_len as int)
}

/// A key is taken by its bytes.
pub open spec fn key_view(key: Option<&[u8]>) -> Option<Seq<u8>> {
    match key {
        Some(k) => Some(k@),
        None => None,
    }
}

/// A hash that is being computed.
pub struct Blake2bState {
    h: [u64; 8],
    t: [u64; 2],
    buf: [u8; 128],
    buf_len: usize,
    out_len: usize,
    /// The chaining value at the beginning.
    start: Ghost<Seq<u64>>,
    /// All data so far.
    data: Ghost<Seq<u8>>,
}

/// Mixes two words into four places of the working vector.
fn g(v: &mut [u64; 16], a: usize, b: usize, c: usize, d: usize, x: u64, y: u64)
    requires
        a < 16,
        b < 16,
        c < 16,
        d < 16,
    ensures
        final(v)@ == mix(old(v)@, a as int, b as int, c as int, d as int, x, y),
{
    proof {
        reveal(mix);
    }
    v[a] = v[a].wrapping_add(v[b]).wrapping_add(x);
    v[d] = rotate_right_64(v[d] ^ v[a], 32);
    v[c] = v[c].wrapping_add(v[d]);
    v[b] = rotate_right_64(v[b] ^ v[c], 24);
    v[a] = v[a].wrapping_add(v[b]).wrapping_add(y);
    v[d] = rotate_right_64(v[d] ^ v[a], 16);
    v[c] = v[c].wrapping_add(v[d]);
    v[b] = rotate_right_64(v[b] ^ v[c], 63);
}

/// A row of the order names words.
spec fn row_small(r: int, n: nat) -> bool
    decreases n,
{
    n == 0 || (row_small(r, (n - 1) as nat) && SIGMA@[r]@[n - 1] < 16)
}

proof fn lemma_row_small(r: int, n: nat, i: int)
    requires
        row_small(r, n),
        0 <= i < n,
    ensures
        SIGMA@[r]@[i] < 16,
    decreases n,
{
    if i < n - 1 {
        lemma_row_small(r, (n - 1) as nat, i);
    }
}

/// The order of the words names words.
pub proof fn sigma_names_words(r: int)
    requires
        0 <= r < 12,
    ensures
        forall|i: int| 0 <= i < 16 ==> #[trigger] SIGMA@[r]@[i] < 16,
{
    reveal_with_fuel(row_small, 17);
    if r == 0 || r == 1 || r == 2 || r == 3 || r == 4 || r == 5 {
        assert(row_small(r, 16));
    } else if r == 6 || r == 7 || r == 8 || r == 9 || r == 10 || r == 11 {
        assert(row_small(r, 16));
    }
    assert forall|i: int| 0 <= i < 16 implies #[trigger] SIGMA@[r]@[i] < 16 by {
        lemma_row_small(r, 16, i);
    }
}

/// A number is among the first `n` of a row.
spec fn row_has(r: int, value: int, n: nat) -> bool
    decreases n,
{
    n > 0 && (SIGMA@[r]@[n - 1] == value || row_has(r, value, (n - 1) as nat))
}

/// The first `n` numbers are in a row.
spec fn row_covers(r: int, n: nat) -> bool
    decreases n,
{
    n == 0 || (row_covers(r, (n - 1) as nat) && row_has(r, n - 1, 16))
}

proof fn lemma_row_has(r: int, value: int, n: nat)
    requires
        row_has(r, value, n),
        n <= 16,
    ensures
        exists|i: int| 0 <= i < 16 && #[trigger] SIGMA@[r]@[i] == value,
    decreases n,
{
    if SIGMA@[r]@[n - 1] != value {
        lemma_row_has(r, value, (n - 1) as nat);
    }
}

proof fn lemma_row_covers(r: int, n: nat, value: int)
    requires
        row_covers(r, n),
        0 <= value < n,
    ensures
        row_has(r, value, 16),
    decreases n,
{
    if value < n - 1 {
        lemma_row_covers(r, (n - 1) as nat, value);
    }
}

proof fn lemma_row_0()
    ensures
        row_covers(0, 16),
{
    reveal_with_fuel(row_has, 17);
    reveal_with_fuel(row_covers, 17);
}

proof fn lemma_row_1()
    ensures
        row_covers(1, 16),
{
    reveal_with_fuel(row_has, 17);
    reveal_with_fuel(row_covers, 17);
}

proof fn lemma_row_2()
    ensures
        row_covers(2, 16),
{
    reveal_with_fuel(row_has, 17);
    reveal_with_fuel(row_covers, 17);
}

proof fn lemma_row_3()
    ensures
        row_covers(3, 16),
{
    reveal_with_fuel(row_has, 17);
    reveal_with_fuel(row_covers, 17);
}

proof fn lemma_row_4()
    ensures
        row_covers(4, 16),
{
    reveal_with_fuel(row_has, 17);
    reveal_with_fuel(row_covers, 17);
}

proof fn lemma_row_5()
    ensures
        row_covers(5, 16),
{
    reveal_with_fuel(row_has, 17);
    reveal_with_fuel(row_covers, 17);
}

proof fn lemma_row_6()
    ensures
        row_covers(6, 16),
{
    reveal_with_fuel(row_has, 17);
    reveal_with_fuel(row_covers, 17);
}

proof fn lemma_row_7()
    ensures
        row_covers(7, 16),
{
    reveal_with_fuel(row_has, 17);
    reveal_with_fuel(row_covers, 17);
}

proof fn lemma_row_8()
    ensures
        row_covers(8, 16),
{
    reveal_with_fuel(row_has, 17);
    reveal_with_fuel(row_covers, 17);
}

proof fn lemma_row_9()
    ensures
        row_covers(9, 16),
{
    reveal_with_fuel(row_has, 17);
    reveal_with_fuel(row_covers, 17);
}

/// Every round takes all sixteen words, and so each of them once, and the last two rounds take
/// them in the order of the first two.
pub proof fn rounds_take_all_words(r: int, w: int)
    requires
        0 <= r < 12,
        0 <= w < 16,
    ensures
        forall|i: int| 0 <= i < 16 ==> #[trigger] SIGMA@[r]@[i] < 16,
        exists|i: int| 0 <= i < 16 && #[trigger] SIGMA@[r]@[i] == w,
        SIGMA@[10]@ == SIGMA@[0]@,
        SIGMA@[11]@ == SIGMA@[1]@,
{
    sigma_names_words(r);
    assert(SIGMA@[10]@ =~= SIGMA@[0]@);
    assert(SIGMA@[11]@ =~= SIGMA@[1]@);
    lemma_row_0();
    lemma_row_1();
    lemma_row_2();
    lemma_row_3();
    lemma_row_4();
    lemma_row_5();
    lemma_row_6();
    lemma_row_7();
    lemma_row_8();
    lemma_row_9();
    let row = if r >= 10 {
        r - 10
    } else {
        r
    };
    assert(SIGMA@[r]@ == SIGMA@[row]@);
    lemma_row_covers(row, 16, w);
    lemma_row_has(row, w, 16);
    let i = choose|i: int| 0 <= i < 16 && #[trigger] SIGMA@[row]@[i] == w;
    assert(SIGMA@[r]@[i] == w);
}

/// One round.
fn round_step(v: &mut [u64; 16], m: &[u64; 16], r: usize)
    requires
        r < 12,
    ensures
        final(v)@ == mix_round(old(v)@, m@, r as int),
{
    proof {
        sigma_names_words(r as int);
        reveal(mix_round);
    }
    let s: [usize; 16] = SIGMA[r];
    g(v, 0, 4, 8, 12, m[s[0]], m[s[1]]);
    g(v, 1, 5, 9, 13, m[s[2]], m[s[3]]);
    g(v, 2, 6, 10, 14, m[s[4]], m[s[5]]);
    g(v, 3, 7, 11, 15, m[s[6]], m[s[7]]);
    g(v, 0, 5, 10, 15, m[s[8]], m[s[9]]);
    g(v, 1, 6, 11, 12, m[s[10]], m[s[11]]);
    g(v, 2, 7, 8, 13, m[s[12]], m[s[13]]);
    g(v, 3, 4, 9, 14, m[s[14]], m[s[15]]);
}

/// Adds a block to a chaining value.
fn compress_block(h: &[u64; 8], block: &[u8; 128], t: &[u64; 2], last: bool, Ghost(count): Ghost<
    nat,
>) -> (r: [u64; 8])
    requires
        t@[0] == low_word(count),
        t@[1] == high_word(count),
    ensures
        r@ == compressed(h@, block@, count, last),
{
    let mut m: [u64; 16] = [0;16];
    let mut i: usize = 0;
    while i < 16
        invariant
            i <= 16,
            forall|k: int| 0 <= k < i ==> m@[k] == from_le64(block@, 8 * k),
        decreases 16 - i,
    {
        m[i] = u64_from_le(block, 8 * i);
        i = i + 1;
    }
    assert(m@ =~= block_words(block@));
    let mut v: [u64; 16] = [
        h[0],
        h[1],
        h[2],
        h[3],
        h[4],
        h[5],
        h[6],
        h[7],
        IV[0],
        IV[1],
        IV[2],
        IV[3],
        IV[4] ^ t[0],
        IV[5] ^ t[1],
        if last {
            IV[6] ^ u64::MAX
        } else {
            IV[6]
        },
        IV[7],
    ];
    assert(v@ =~= working_vector(h@, count, last));
    let ghost v0 = v@;
    let mut r: usize = 0;
    while r < 12
        invariant
            r <= 12,
            m@ == block_words(block@),
            v@ == mix_rounds(v0, m@, r as nat),
        decreases 12 - r,
    {
        round_step(&mut v, &m, r);
        r = r + 1;
    }
    let mut out: [u64; 8] = [0;8];
    let mut k: usize = 0;
    while k < 8
        invariant
            k <= 8,
            v@ == mix_rounds(v0, m@, 12),
            v@.len() == 16,
            forall|j: int| 0 <= j < k ==> out@[j] == h@[j] ^ (v@[j] ^ v@[j + 8]),
        decreases 8 - k,
    {
        out[k] = h[k] ^ (v[k] ^ v[k + 8]);
        k = k + 1;
    }
    assert(out@ =~= compressed(h@, block@, count, last));
    out
}

/// The chaining value depends on the bytes of its blocks alone.
proof fn lemma_chain_prefix(start: Seq<u64>, data: Seq<u8>, more: Seq<u8>, n: nat)
    requires
        128 * n <= data.len(),
    ensures
        chain(start, data + more, n) == chain(start, data, n),
    decreases n,
{
    if n > 0 {
        lemma_chain_prefix(start, data, more, (n - 1) as nat);
        assert((data + more).subrange(128 * (n - 1), 128 * (n as int)) =~= data.subrange(
            128 * (n - 1),
            128 * (n as int),
        ));
    }
}

impl Blake2bState {
    /// All data so far.
    pub closed spec fn absorbed(&self) -> Seq<u8> {
        self.data@
    }

    /// The chaining value at the beginning.
    pub closed spec fn begun(&self) -> Seq<u64> {
        self.start@
    }

    /// The length of the digest.
    pub closed spec fn digest_len(&self) -> nat {
        self.out_len as nat
    }

    /// All whole blocks but the last have been compressed, and the rest is in
    /// the buffer.
    pub closed spec fn wf(&self) -> bool {
        let n = blocks_before_last(self.data@.len());
        &&& self.out_len <= 64
        &&& self.buf_len == self.data@.len() - 128 * n
        &&& self.buf_len <= 128
        &&& self.h@ == chain(self.start@, self.data@, n)
        &&& self.t@[0] == low_word(128 * n)
        &&& self.t@[1] == high_word(128 * n)
        &&& self.buf@.take(self.buf_len as int) == self.data@.skip(128 * (n as int))
        &&& self.start@.len() == 8
    }

    /// Begins a hash, with a key or without.
    pub fn new(out_len: usize, key: Option<&[u8]>) -> (r: Self)
        requires
            out_len <= MAX_OUT_LEN,
            key matches Some(k) ==> k@.len() <= MAX_KEY_LEN,
        ensures
            r.wf(),
            r.begun() == initial(out_len as nat, key_len(key_view(key))),
            r.absorbed() == keyed(key_view(key), seq![]),
            r.digest_len() == out_len,
    {
        let key_length: usize = match key {
            Some(k) => k.len(),
            None => 0,
        };
        let p0: u64 = out_len as u64 | (key_length as u64) << 8 | 1u64 << 16 | 1u64 << 24;
        let mut h: [u64; 8] = IV;
        h[0] = h[0] ^ p0;
        let ghost begin = initial(out_len as nat, key_len(key_view(key)));
        assert(h@ =~= begin);
        let buf: [u8; 128] = [0;128];
        let t: [u64; 2] = [0;2];
        let mut state = Blake2bState {
            h,
            t,
            buf,
            buf_len: 0,
            out_len,
            start: Ghost(begin),
            data: Ghost(Seq::empty()),
        };
        proof {
            assert(state.buf@.take(0) =~= state.data@.skip(0));
        }
        if let Some(k) = key {
            let mut key_block: [u8; 128] = [0;128];
            let mut i: usize = 0;
            while i < k.len()
                invariant
                    i <= k@.len() <= 64,
                    forall|j: int| 0 <= j < i ==> key_block@[j] == k@[j],
                    forall|j: int| i <= j < 128 ==> key_block@[j] == 0,
                decreases k@.len() - i,
            {
                key_block[i] = k[i];
                i = i + 1;
            }
            assert(key_block@ =~= zero_padded(k@, 128));
            state.update(&key_block);
            assert(state.data@ =~= zero_padded(k@, 128) + seq![]);
        }
        state
    }

    /// Adds data.
    pub fn update(&mut self, input: &[u8])
        requires
            old(self).wf(),
        ensures
            final(self).wf(),
            final(self).begun() == old(self).begun(),
            final(self).absorbed() == old(self).absorbed() + input@,
            final(self).digest_len() == old(self).digest_len(),
    {
        let mut offset: usize = 0;
        assert(input@.take(0) =~= seq![]);
        assert(self.data@ =~= old(self).data@ + input@.take(0));
        while offset < input.len()
            invariant
                offset <= input@.len(),
                self.wf(),
                self.start == old(self).start,
                self.out_len == old(self).out_len,
                self.data@ == old(self).data@ + input@.take(offset as int),
            decreases input@.len() - offset,
        {
            self.push_byte(input[offset]);
            offset = offset + 1;
            assert(old(self).data@ + input@.take(offset as int) =~= (old(self).data@ + input@.take(
                offset - 1,
            )).push(input@[offset - 1]));
        }
        assert(input@.take(offset as int) =~= input@);
    }

    /// Adds one byte. A full buffer is compressed first, so that the last
    /// block is always there when the hash is finished.
    fn push_byte(&mut self, byte: u8)
        requires
            old(self).wf(),
        ensures
            final(self).wf(),
            final(self).start == old(self).start,
            final(self).out_len == old(self).out_len,
            final(self).data@ == old(self).data@.push(byte),
    {
        let ghost data = self.data@;
        let ghost n = blocks_before_last(data.len());
        let ghost next = data.push(byte);
        let ghost m = blocks_before_last(next.len());
        proof {
            lemma_chain_prefix(self.start@, data, seq![byte], n);
            assert(data + seq![byte] =~= next);
        }
        if self.buf_len == BLOCK_SIZE {
            proof {
                assert(data.len() == 128 * (n + 1));
                assert(m == n + 1);
                assert(self.buf@.take(128) =~= self.buf@);
                assert(data.skip(128 * (n as int)) =~= next.subrange(
                    128 * (n as int),
                    128 * (n + 1) as int,
                ));
            }
            self.increment_counter(128, Ghost(128 * n));
            self.compress(false, Ghost(128 * (n + 1)));
            self.buf_len = 0;
        } else {
            proof {
                assert(m == n);
            }
        }
        let ghost buf = self.buf@;
        let at: usize = self.buf_len;
        self.buf[at] = byte;
        self.buf_len = self.buf_len + 1;
        proof {
            self.data = Ghost(next);
            if m == n {
                assert(self.buf@.take(at + 1) =~= buf.take(at as int).push(byte));
                assert(next.skip(128 * (n as int)) =~= data.skip(128 * (n as int)).push(byte));
            } else {
                assert(self.buf@.take(1) =~= next.skip(128 * (m as int)));
            }
        }
    }

    /// Adds to the count of bytes.
    fn increment_counter(&mut self, n: u64, Ghost(count): Ghost<nat>)
        requires
            old(self).t@[0] == low_word(count),
            old(self).t@[1] == high_word(count),
        ensures
            final(self).t@[0] == low_word(count + n as nat),
            final(self).t@[1] == high_word(count + n as nat),
            final(self).h == old(self).h,
            final(self).buf == old(self).buf,
            final(self).buf_len == old(self).buf_len,
            final(self).out_len == old(self).out_len,
            final(self).start == old(self).start,
            final(self).data == old(self).data,
    {
        self.t[0] = self.t[0].wrapping_add(n);
        if self.t[0] < n {
            self.t[1] = self.t[1].wrapping_add(1);
        }
        proof {
            lemma_count(count, n);
        }
    }

    /// Compresses the buffer.
    fn compress(&mut self, last: bool, Ghost(count): Ghost<nat>)
        requires
            old(self).t@[0] == low_word(count),
            old(self).t@[1] == high_word(count),
        ensures
            final(self).h@ == compressed(old(self).h@, old(self).buf@, count, last),
            final(self).t == old(self).t,
            final(self).buf == old(self).buf,
            final(self).buf_len == old(self).buf_len,
            final(self).out_len == old(self).out_len,
            final(self).start == old(self).start,
            final(self).data == old(self).data,
    {
        self.h = compress_block(&self.h, &self.buf, &self.t, last, Ghost(count));
    }

    /// Ends the hash, and gives the digest.
    pub fn finalize(self) -> (r: Vec<u8>)
        requires
            self.wf(),
        ensures
            r@ == le64_words(finish(self.begun(), self.absorbed())).take(self.digest_len() as int),
            r@.len() == self.digest_len(),
    {
        let mut state = self;
        let ghost data = self.data@;
        let ghost n = blocks_before_last(data.len());
        let buffered: usize = state.buf_len;
        state.increment_counter(buffered as u64, Ghost(128 * n));
        let mut i: usize = buffered;
        while i < BLOCK_SIZE
            invariant
                buffered <= i <= 128,
                buffered == self.buf_len,
                state.h == self.h,
                state.out_len == self.out_len,
                state.t@[0] == low_word(data.len()),
                state.t@[1] == high_word(data.len()),
                forall|j: int| 0 <= j < buffered ==> state.buf@[j] == self.buf@[j],
                forall|j: int| buffered <= j < i ==> state.buf@[j] == 0,
            decreases 128 - i,
        {
            state.buf[i] = 0;
            i = i + 1;
        }
        proof {
            let rest = data.skip(128 * (n as int));
            assert forall|j: int| 0 <= j < 128 implies state.buf@[j] == zero_padded(rest, 128)[j] by {
                if j < buffered {
                    assert(rest[j] == self.buf@.take(self.buf_len as int)[j]);
                }
            }
            assert(state.buf@ =~= zero_padded(rest, 128));
        }
        state.compress(true, Ghost(data.len()));
        let ghost end = state.h@;
        assert(end == finish(self.start@, data));
        let mut all: Vec<u8> = Vec::new();
        let mut w: usize = 0;
        assert(end.take(0) =~= seq![]);
        while w < 8
            invariant
                w <= 8,
                state.h@ == end,
                end.len() == 8,
                state.out_len == self.out_len,
                all@ == le64_words(end.take(w as int)),
            decreases 8 - w,
        {
            append(&mut all, &u64_to_le(state.h[w]));
            assert(end.take(w + 1).drop_last() =~= end.take(w as int));
            w = w + 1;
        }
        assert(end.take(8) =~= end);
        proof {
            lemma_le64_words_len(end);
        }
        let out: usize = state.out_len;
        let r = copy_range(all.as_slice(), 0, out);
        assert(r@ =~= le64_words(end).take(out as int));
        r
    }
}

/// Counting in two words.
proof fn lemma_count(count: nat, n: u64)
    ensures
        ({
            let sum = low_word(count).wrapping_add(n);
            &&& sum == low_word(count + n as nat)
            &&& high_word(count + n as nat) == if sum < n {
                high_word(count).wrapping_add(1)
            } else {
                high_word(count)
            }
        }),
{
    let base: int = 0x1_0000_0000_0000_0000;
    let q = count as int / base;
    let r = count as int % base;
    assert(count == q * base + r) by (nonlinear_arith)
        requires
            q == count as int / base,
            r == count as int % base,
            base > 0,
    ;
    if r + n < base {
        vstd::arithmetic::div_mod::lemma_fundamental_div_mod_converse(
            count + n,
            base,
            q,
            r + n,
        );
    } else {
        assert(count + n == (q + 1) * base + (r + n - base)) by (nonlinear_arith)
            requires
                count == q * base + r,
        ;
        vstd::arithmetic::div_mod::lemma_fundamental_div_mod_converse(
            count + n,
            base,
            q + 1,
            r + n - base,
        );
    }
}

/// Computes a digest of 1 to 64 bytes, with a key of 1 to 64 bytes or without.
pub fn blake2b(input: &[u8], out_len: usize, key: Option<&[u8]>) -> (r: Option<Vec<u8>>)
    ensures
        r is Some <==> 1 <= out_len <= 64 && (key matches Some(k) ==> 1 <= k@.len() <= 64),
        r matches Some(digest) ==> digest@ == blake2b_digest(
            input@,
            out_len as nat,
            key_view(key),
        ) && digest@.len() == out_len,
{
    if out_len == 0 || out_len > MAX_OUT_LEN {
        return None;
    }
    if let Some(k) = key {
        if k.len() == 0 || k.len() > MAX_KEY_LEN {
            return None;
        }
    }
    let mut state = Blake2bState::new(out_len, key);
    state.update(input);
    assert(state.absorbed() =~= keyed(key_view(key), input@));
    Some(state.finalize())
}

/// Turns a digest of 64 bytes into an array.
fn array_64(bytes: &Vec<u8>) -> (r: [u8; 64])
    requires
        bytes@.len() == 64,
    ensures
        r@ == bytes@,
{
    let mut r: [u8; 64] = [0;64];
    let mut i: usize = 0;
    while i < 64
        invariant
            i <= 64,
            bytes@.len() == 64,
            forall|j: int| 0 <= j < i ==> r@[j] == bytes@[j],
        decreases 64 - i,
    {
        r[i] = bytes[i];
        i = i + 1;
    }
    assert(r@ =~= bytes@);
    r
}

/// Turns a digest of 32 bytes into an array.
fn array_32(bytes: &Vec<u8>) -> (r: [u8; 32])
    requires
        bytes@.len() == 32,
    ensures
        r@ == bytes@,
{
    let mut r: [u8; 32] = [0;32];
    let mut i: usize = 0;
    while i < 32
        invariant
            i <= 32,
            bytes@.len() == 32,
            forall|j: int| 0 <= j < i ==> r@[j] == bytes@[j],
        decreases 32 - i,
    {
        r[i] = bytes[i];
        i = i + 1;
    }
    assert(r@ =~= bytes@);
    r
}

/// Computes a digest of 64 bytes.
pub fn blake2b_512(input: &[u8]) -> (r: [u8; 64])
    ensures
        r@ == blake2b_digest(input@, 64, None),
{
    let mut state = Blake2bState::new(64, None);
    state.update(input);
    assert(state.absorbed() =~= keyed(None, input@));
    let out = state.finalize();
    array_64(&out)
}

/// Computes a digest of 64 bytes.
pub fn blake2b_512_slice(input: &[u8]) -> (r: [u8; 64])
    ensures
        r@ == blake2b_digest(input@, 64, None),
{
    blake2b_512(input)
}

/// The nearest length that a digest can have.
pub open spec fn clamped(out_len: nat) -> nat {
    if out_len < 1 {
        1
    } else if out_len > 64 {
        64
    } else {
        out_len
    }
}

/// Computes a digest of the length, or of the nearest length there is.
pub fn blake2b_variable(input: &[u8], out_len: usize) -> (r: Vec<u8>)
    ensures
        r@ == blake2b_digest(input@, clamped(out_len as nat), None),
        r@.len() == clamped(out_len as nat),
{
    let length: usize = if out_len < 1 {
        1
    } else if out_len > MAX_OUT_LEN {
        MAX_OUT_LEN
    } else {
        out_len
    };
    let mut state = Blake2bState::new(length, None);
    state.update(input);
    assert(state.absorbed() =~= keyed(None, input@));
    state.finalize()
}

/// Computes a digest of 32 bytes.
pub fn blake2b_256(input: &[u8]) -> (r: [u8; 32])
    ensures
        r@ == blake2b_digest(input@, 32, None),
{
    let mut state = Blake2bState::new(32, None);
    state.update(input);
    assert(state.absorbed() =~= keyed(None, input@));
    let out = state.finalize();
    array_32(&out)
}

/// Computes an authentication code of 64 bytes with a key of 1 to 64 bytes.
pub fn blake2b_mac_512(input: &[u8], key: &[u8]) -> (r: Option<[u8; 64]>)
    ensures
        r is Some <==> 1 <= key@.len() <= 64,
        r matches Some(tag) ==> tag@ == blake2b_digest(input@, 64, Some(key@)),
{
    if key.len() == 0 || key.len() > MAX_KEY_LEN {
        return None;
    }
    let mut state = Blake2bState::new(64, Some(key));
    state.update(input);
    assert(state.absorbed() =~= keyed(Some(key@), input@));
    let out = state.finalize();
    Some(array_64(&out))
}

/// Computes an authentication code of 32 bytes with a key of 1 to 64 bytes.
pub fn blake2b_mac_256(input: &[u8], key: &[u8]) -> (r: Option<[u8; 32]>)
    ensures
        r is Some <==> 1 <= key@.len() <= 64,
        r matches Some(tag) ==> tag@ == blake2b_digest(input@, 32, Some(key@)),
{
    if key.len() == 0 || key.len() > MAX_KEY_LEN {
        return None;
    }
    let mut state = Blake2bState::new(32, Some(key));
    state.update(input);
    assert(state.absorbed() =~= keyed(Some(key@), input@));
    let out = state.finalize();
    Some(array_32(&out))
}

/// What follows the first half digest: half of each digest of the digest
/// before, until a last digest gives all that is left.
pub open spec fn h_prime_tail(v: Seq<u8>, left: nat) -> Seq<u8>
    decreases left,
{
    if left <= 64 {
        blake2b_digest(v, left, None)
    } else {
        let next = blake2b_digest(v, 64, None);
        next.take(32) + h_prime_tail(next, (left - 32) as nat)
    }
}

/// A digest of any length, as in RFC 9106: short ones are BLAKE2b digests of
/// the length and the input, longer ones are drawn from a chain of digests.
pub open spec fn h_prime_digest(input: Seq<u8>, out_len: nat) -> Seq<u8> {
    let message = le32(out_len as u32) + input;
    if out_len <= 64 {
        blake2b_digest(message, out_len, None)
    } else {
        let first = blake2b_digest(message, 64, None);
        first.take(32) + h_prime_tail(first, (out_len - 32) as nat)
    }
}

/// Computes a digest of `out_len` bytes.
pub fn h_prime(input: &[u8], out_len: usize) -> (r: Vec<u8>)
    requires
        1 <= out_len <= u32::MAX,
    ensures
        r@ == h_prime_digest(input@, out_len as nat),
        r@.len() == out_len,
{
    let mut message: Vec<u8> = Vec::new();
    append(&mut message, &u32_to_le(out_len as u32));
    append(&mut message, input);
    assert(message@ =~= le32(out_len as u32) + input@);
    if out_len <= MAX_OUT_LEN {
        return blake2b_variable(message.as_slice(), out_len);
    }
    let mut v = blake2b_512(message.as_slice());
    let mut out: Vec<u8> = copy_range(&v, 0, 32);
    let mut left: usize = out_len - 32;
    assert(out@ =~= v@.take(32));
    while left > MAX_OUT_LEN
        invariant
            32 < left,
            out@.len() + left == out_len,
            h_prime_digest(input@, out_len as nat) == out@ + h_prime_tail(v@, left as nat),
        decreases left,
    {
        let ghost before = out@;
        let next = blake2b_512_slice(&v);
        append(&mut out, copy_range(&next, 0, 32).as_slice());
        proof {
            assert(next@.subrange(0, 32) =~= next@.take(32));
            assert(before + (next@.take(32) + h_prime_tail(next@, (left - 32) as nat)) =~= out@
                + h_prime_tail(next@, (left - 32) as nat));
        }
        v = next;
        left = left - 32;
    }
    append(&mut out, blake2b_variable(&v, left).as_slice());
    out
}

/// The count of bytes is held in two words, of which the second counts the
/// revolutions of the first.
pub proof fn count_is_held_in_two_words(count: nat)
    requires
        count < 0x1_0000_0000_0000_0000_0000_0000_0000_0000,
    ensures
        low_word(count) + 0x1_0000_0000_0000_0000 * high_word(count) == count,
        count <= u64::MAX ==> low_word(count) == count && high_word(count) == 0,
{
}

/// The working vector begins with the chaining value; the constants follow. The
/// count of bytes is combined with two of them, and for the last block a third
/// one is inverted.
pub proof fn working_vector_words(h: Seq<u64>, count: u64, last: bool)
    ensures
        ({
            let v = working_vector(h, count as nat, last);
            &&& v.len() == 16
            &&& forall|i: int| 0 <= i < 8 ==> #[trigger] v[i] == h[i]
            &&& v[8] == 0x6a09e667f3bcc908
            &&& v[9] == 0xbb67ae8584caa73b
            &&& v[10] == 0x3c6ef372fe94f82b
            &&& v[11] == 0xa54ff53a5f1d36f1
            &&& v[12] == 0x510e527fade682d1 ^ count
            &&& v[13] == 0x9b05688c2b3e6c1f
            &&& v[14] == if last {
                !0x1f83d9abfb41bd6bu64
            } else {
                0x1f83d9abfb41bd6b
            }
            &&& v[15] == 0x5be0cd19137e2179
        }),
{
    count_is_held_in_two_words(count as nat);
    assert(0x9b05688c2b3e6c1fu64 ^ 0 == 0x9b05688c2b3e6c1fu64 && 0x1f83d9abfb41bd6bu64 ^ u64::MAX
        == !0x1f83d9abfb41bd6bu64) by (bit_vector);
}

/// The chaining value to begin with is made of the constants. The first one is
/// combined with a number that tells the length of the digest, that of the key,
/// and twice one.
pub proof fn parameters_enter_the_first_word(out_len: nat, key_len: nat)
    requires
        out_len <= 64,
        key_len <= 64,
    ensures
        initial(out_len, key_len).len() == 8,
        initial(out_len, key_len)[0] == 0x6a09e667f3bcc908u64 ^ (out_len + 0x100 * key_len
            + 0x1010000) as u64,
        forall|i: int| 1 <= i < 8 ==> #[trigger] initial(out_len, key_len)[i] == IV@[i],
{
    let (a, b) = (out_len as u64, key_len as u64);
    assert((a | b << 8 | 1u64 << 16 | 1u64 << 24) == a + 0x100 * b + 0x1010000) by (bit_vector)
        requires
            a <= 64,
            b <= 64,
    ;
}

/// All blocks but the last are compressed with the count of bytes up to their
/// end, and the last one, filled up with zeros, with the count of all bytes. It
/// holds at least a byte, if there is one.
pub proof fn blocks_are_counted(start: Seq<u64>, data: Seq<u8>, n: nat)
    requires
        n == blocks_before_last(data.len()),
    ensures
        data.len() > 0 ==> 128 * n < data.len() <= 128 * (n + 1),
        data.len() == 0 ==> n == 0,
        finish(start, data) == compressed(
            chain(start, data, n),
            data.skip(128 * (n as int)) + Seq::new(
                (128 * (n + 1) - data.len()) as nat,
                |i: int| 0u8,
            ),
            data.len(),
            true,
        ),
{
    let rest = data.skip(128 * (n as int));
    assert(zero_padded(rest, 128) =~= rest + Seq::new(
        (128 * (n + 1) - data.len()) as nat,
        |i: int| 0u8,
    ));
}

/// The chain takes one block after the other, of 128 bytes each, and counts
/// their bytes.
pub proof fn chain_takes_block_by_block(start: Seq<u64>, data: Seq<u8>, block: Seq<u8>)
    requires
        data.len() % 128 == 0,
        block.len() == 128,
    ensures
        chain(start, data, 0) == start,
        chain(start, data + block, data.len() / 128 + 1) == compressed(
            chain(start, data, data.len() / 128),
            block,
            data.len() + 128,
            false,
        ),
{
    let n = data.len() / 128;
    lemma_chain_prefix(start, data, block, n);
    assert((data + block).subrange(128 * (n as int), 128 * (n + 1) as int) =~= block);
}

/// A key is hashed as a block of its own, filled up with zeros, before the data.
pub proof fn key_is_a_block(key: Seq<u8>, data: Seq<u8>)
    requires
        key.len() <= 64,
    ensures
        keyed(Some(key), data) == key + Seq::new((128 - key.len()) as nat, |i: int| 0u8) + data,
        keyed(None, data) == data,
        key_len(Some(key)) == key.len(),
        key_len(None) == 0,
{
    assert(keyed(Some(key), data) =~= key + Seq::new((128 - key.len()) as nat, |i: int| 0u8)
        + data);
}

/// The length of a digest is brought to 1 if it is below, and to 64 if it is
/// above.
pub proof fn lengths_are_clamped(n: nat)
    ensures
        1 <= clamped(n) <= 64,
        1 <= n <= 64 ==> clamped(n) == n,
        n > 64 ==> clamped(n) == 64,
{
}

/// The digest of a digest, and so on, `i` times.
pub open spec fn digest_chain(v: Seq<u8>, i: nat) -> Seq<u8>
    decreases i,
{
    if i == 0 {
        v
    } else {
        blake2b_digest(digest_chain(v, (i - 1) as nat), 64, None)
    }
}

proof fn lemma_chain_front(v: Seq<u8>, i: nat)
    ensures
        digest_chain(v, i + 1) == digest_chain(blake2b_digest(v, 64, None), i),
    decreases i,
{
    reveal_with_fuel(digest_chain, 2);
    if i > 0 {
        lemma_chain_front(v, (i - 1) as nat);
    }
}

proof fn lemma_digest_len(data: Seq<u8>, out_len: nat)
    requires
        out_len <= 64,
    ensures
        blake2b_digest(data, out_len, None).len() == out_len,
{
    let h = finish(initial(out_len, 0), data);
    assert(h.len() == 8);
    lemma_le64_words_len(h);
}

proof fn lemma_tail_len(v: Seq<u8>, left: nat)
    ensures
        h_prime_tail(v, left).len() == left,
    decreases left,
{
    if left <= 64 {
        lemma_digest_len(v, left);
    } else {
        let next = blake2b_digest(v, 64, None);
        lemma_digest_len(v, 64);
        lemma_tail_len(next, (left - 32) as nat);
    }
}

/// The pieces of what follows the first piece.
proof fn lemma_later_pieces(front: Seq<u8>, rest: Seq<u8>, i: int)
    requires
        front.len() == 32,
        i >= 1,
    ensures
        32 * i + 32 <= 32 + rest.len() ==> (front + rest).subrange(32 * i, 32 * i + 32)
            == rest.subrange(32 * (i - 1), 32 * (i - 1) + 32),
        32 * i <= 32 + rest.len() ==> (front + rest).skip(32 * i) == rest.skip(32 * (i - 1)),
{
    let t = front + rest;
    if 32 * i + 32 <= t.len() {
        assert(t.subrange(32 * i, 32 * i + 32) =~= rest.subrange(32 * (i - 1), 32 * (i - 1) + 32));
    }
    if 32 * i <= t.len() {
        assert(t.skip(32 * i) =~= rest.skip(32 * (i - 1)));
    }
}

proof fn lemma_tail(v: Seq<u8>, left: nat, i: nat)
    requires
        32 * i + 32 < left,
    ensures
        32 * i + 64 < left ==> h_prime_tail(v, left).subrange(32 * (i as int), 32 * (i as int) + 32)
            == digest_chain(v, i + 1).take(32),
        left <= 32 * i + 64 ==> h_prime_tail(v, left).skip(32 * (i as int)) == blake2b_digest(
            digest_chain(v, i),
            (left - 32 * i) as nat,
            None,
        ),
    decreases left,
{
    let t = h_prime_tail(v, left);
    lemma_tail_len(v, left);
    if left <= 64 {
        assert(i == 0);
        assert(t.skip(0) =~= t);
    } else {
        let next = blake2b_digest(v, 64, None);
        lemma_digest_len(v, 64);
        let rest = h_prime_tail(next, (left - 32) as nat);
        lemma_tail_len(next, (left - 32) as nat);
        assert(t == next.take(32) + rest);
        if i == 0 {
            reveal_with_fuel(digest_chain, 2);
            assert(t.subrange(0, 32) =~= next.take(32));
        } else {
            lemma_tail(next, (left - 32) as nat, (i - 1) as nat);
            lemma_chain_front(v, i);
            lemma_chain_front(v, (i - 1) as nat);
            lemma_later_pieces(next.take(32), rest, i as int);
        }
    }
}

/// A digest of up to 64 bytes is the digest of its length and the input. A
/// longer one is made of the first halves of a chain of digests that begins with
/// the digest of the length and the input, as long as more than 64 bytes are
/// missing, and ends with a digest of what is missing then.
pub proof fn long_digest_pieces(input: Seq<u8>, out_len: nat, i: nat)
    requires
        1 <= out_len <= u32::MAX,
    ensures
        ({
            let message = le32(out_len as u32) + input;
            let first = blake2b_digest(message, 64, None);
            let r = h_prime_digest(input, out_len);
            &&& r.len() == out_len
            &&& out_len <= 64 ==> r == blake2b_digest(message, out_len, None)
            &&& 32 * i + 64 < out_len ==> r.subrange(32 * (i as int), 32 * (i as int) + 32)
                == digest_chain(first, i).take(32)
            &&& 32 * i + 64 < out_len <= 32 * i + 96 ==> r.skip(32 * (i as int) + 32)
                == blake2b_digest(digest_chain(first, i), (out_len - 32 * i - 32) as nat, None)
        }),
{
    let message = le32(out_len as u32) + input;
    let first = blake2b_digest(message, 64, None);
    let r = h_prime_digest(input, out_len);
    lemma_digest_len(message, 64);
    if out_len <= 64 {
        lemma_digest_len(message, out_len);
    } else {
        let left = (out_len - 32) as nat;
        let tail = h_prime_tail(first, left);
        lemma_tail_len(first, left);
        assert(r == first.take(32) + tail);
        if 32 * i + 64 < out_len {
            lemma_tail(first, left, i);
            lemma_later_pieces(first.take(32), tail, (i + 1) as int);
            if i == 0 {
                assert(r.subrange(0, 32) =~= first.take(32));
            } else {
                lemma_tail(first, left, (i - 1) as nat);
                lemma_later_pieces(first.take(32), tail, i as int);
            }
        }
    }
}

} // verus!
