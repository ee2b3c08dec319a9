//! Random bytes from the hardware's words and a pool of each processor's own.
//!
//! Every output word is a hardware word combined with a word of the pool, and
//! the pool is refreshed from the hardware now and then. Reading the hardware
//! is left to the caller: which source to read, and what becomes of the words
//! that were read, is decided here.

use vstd::prelude::*;

use super::hash::padding::{rotate_left_64, rotl64};
use crate::bytes::{
    from_le64, le64, le64_words, lemma_le64_words_at, lemma_le64_words_len, u64_from_le, u64_to_le,
};

verus! {

/// How many calls of [`get_random_bytes`] there are between two refreshes of
/// the pool.
pub const RESEED_INTERVAL: u32 = 64;

/// How often a hardware source is asked before it is given up.
pub const HW_RETRY_LIMIT: u32 = 16;

/// How many hardware words fill the pool.
pub const SEED_WORDS: usize = 4;

pub const WY_P0: u64 = 0x2d358dccaa6c78a5;

pub const WY_P1: u64 = 0x8bb84b93962eacc9;

/// Whether the feature word of the processor tells of RDRAND.
pub fn has_rdrand(ecx: u32) -> (r: bool)
    ensures
        r == ((ecx >> 30) & 1 == 1),
{
    (ecx >> 30) & 1 == 1
}

/// Whether the extended feature word of the processor tells of RDSEED.
pub fn has_rdseed(ebx: u32) -> (r: bool)
    ensures
        r == ((ebx >> 18) & 1 == 1),
{
    (ebx >> 18) & 1 == 1
}

/// The time stamp from its two halves.
pub fn tsc_value(lo: u32, hi: u32) -> (r: u64)
    ensures
        r == 0x1_0000_0000 * hi + lo,
{
    assert(((hi as u64) << 32) | (lo as u64) == 0x1_0000_0000 * (hi as u64) + (lo as u64))
        by (bit_vector);
    ((hi as u64) << 32) | (lo as u64)
}

/// The two halves of a product, combined.
pub open spec fn folded_product(a: u64, b: u64) -> u64 {
    let product = a as int * b as int;
    (product % 0x1_0000_0000_0000_0000) as u64 ^ (product / 0x1_0000_0000_0000_0000) as u64
}

/// Multiplies, and combines the two halves of the product.
pub fn wymix(a: u64, b: u64) -> (r: u64)
    ensures
        r == folded_product(a, b),
{
    assert(a as int * b as int <= 0xFFFF_FFFF_FFFF_FFFF * 0xFFFF_FFFF_FFFF_FFFF)
        by (nonlinear_arith)
        requires
            a <= 0xFFFF_FFFF_FFFF_FFFF,
            b <= 0xFFFF_FFFF_FFFF_FFFF,
    ;
    assert(0 <= a as int * b as int) by (nonlinear_arith);
    let product: u128 = (a as u128) * (b as u128);
    (product % 0x1_0000_0000_0000_0000) as u64 ^ (product / 0x1_0000_0000_0000_0000) as u64
}

/// What the timing of a counter that was read between two time stamps gives.
pub open spec fn jitter_of(tsc_before: u64, counter: u64, tsc_after: u64) -> u64 {
    folded_product(tsc_before ^ WY_P0, counter ^ WY_P1) ^ folded_product(
        tsc_after ^ WY_P0,
        rotl64(counter, 17) ^ WY_P1,
    )
}

/// Makes a word of the timing of a counter that was read between two time
/// stamps.
pub fn jitter_sample(tsc_before: u64, counter: u64, tsc_after: u64) -> (r: u64)
    ensures
        r == jitter_of(tsc_before, counter, tsc_after),
{
    wymix(tsc_before ^ WY_P0, counter ^ WY_P1) ^ wymix(
        tsc_after ^ WY_P0,
        rotate_left_64(counter, 17) ^ WY_P1,
    )
}

/// Where a hardware word comes from.
#[derive(Clone, Copy, Debug, PartialEq, Eq, Structural)]
pub enum Source {
    /// RDSEED.
    Seed,
    /// RDRAND.
    Generator,
    /// Timing jitter, or the time stamp alone where there is no timer. It
    /// always gives a word.
    Jitter,
}

/// Chooses the source to ask first. Seeding prefers RDSEED.
pub fn first_source(prefer_seed: bool, rdseed: bool, rdrand: bool) -> (r: Source)
    ensures
        r == if prefer_seed && rdseed {
            Source::Seed
        } else if rdrand {
            Source::Generator
        } else {
            Source::Jitter
        },
{
    if prefer_seed && rdseed {
        Source::Seed
    } else if rdrand {
        Source::Generator
    } else {
        Source::Jitter
    }
}

/// The source after one that gave no word.
pub open spec fn fallback_of(source: Source) -> Source {
    match source {
        Source::Seed => Source::Generator,
        Source::Generator => Source::Jitter,
        Source::Jitter => Source::Jitter,
    }
}

/// Chooses the source to ask after one that gave no word.
pub fn fallback(source: Source) -> (r: Source)
    ensures
        r == fallback_of(source),
{
    match source {
        Source::Seed => Source::Generator,
        Source::Generator => Source::Jitter,
        Source::Jitter => Source::Jitter,
    }
}

/// Whichever source comes first, the one that always gives a word is at most
/// two steps away.
pub proof fn a_word_is_always_found(source: Source)
    ensures
        fallback_of(fallback_of(source)) == Source::Jitter,
{
}

/// The pool of a processor.
pub struct CpuRngState {
    pool: [u8; 32],
    call_count: u32,
    pool_cursor: usize,
}

/// A pool as a value.
pub ghost struct PoolModel {
    /// 32 bytes.
    pub pool: Seq<u8>,
    /// How many calls there were.
    pub calls: u32,
    /// Where the word of the pool for the next output word begins.
    pub cursor: int,
}

/// The pool with 32 bytes combined into it.
pub open spec fn pool_mixed(pool: Seq<u8>, fresh: Seq<u8>) -> Seq<u8> {
    Seq::new(32, |i: int| pool[i] ^ fresh[i])
}

impl PoolModel {
    pub open spec fn wf(self) -> bool {
        &&& self.pool.len() == 32
        &&& self.cursor == 0 || self.cursor == 8 || self.cursor == 16 || self.cursor == 24
    }

    /// Whether the next call refreshes the pool.
    pub open spec fn reseed_due(self) -> bool {
        self.calls % RESEED_INTERVAL == 0
    }

    /// The pool with hardware words combined into it.
    pub open spec fn reseeded(self, words: Seq<u64>) -> PoolModel {
        PoolModel { pool: pool_mixed(self.pool, le64_words(words.take(4))), ..self }
    }

    /// The pool at the first output word of a call.
    pub open spec fn called(self, words: Seq<u64>) -> PoolModel {
        let fresh = if self.reseed_due() {
            self.reseeded(words)
        } else {
            self
        };
        PoolModel { calls: self.calls.wrapping_add(1), ..fresh }
    }

    /// The `n`-th output word for the hardware words.
    pub open spec fn output_word(self, words: Seq<u64>, n: int) -> u64 {
        words[n] ^ from_le64(self.pool, (self.cursor + 8 * n) % 32)
    }

    /// The output bytes for the hardware words.
    pub open spec fn output(self, words: Seq<u64>, len: nat) -> Seq<u8> {
        Seq::new(len, |i: int| le64(self.output_word(words, i / 8))[i % 8])
    }

    /// The pool after `n` output words.
    pub open spec fn drawn(self, n: int) -> PoolModel {
        PoolModel { cursor: (self.cursor + 8 * n) % 32, ..self }
    }

    /// How many hardware words go into the pool at the next call.
    pub open spec fn seed_need(self) -> int {
        if self.reseed_due() {
            4
        } else {
            0
        }
    }

    /// How many hardware words the next call takes for as many bytes.
    pub open spec fn words_need(self, len: nat) -> int {
        if len == 0 {
            0
        } else {
            self.seed_need() + (len + 7) / 8
        }
    }

    /// The bytes that the next call gives.
    pub open spec fn random(self, words: Seq<u64>, len: nat) -> Seq<u8> {
        self.called(words).output(words.skip(self.seed_need()), len)
    }

    /// The pool after the next call, if it gives as many bytes.
    pub open spec fn after(self, words: Seq<u64>, len: nat) -> PoolModel {
        if len == 0 {
            self
        } else {
            self.called(words).drawn((len + 7) as int / 8)
        }
    }
}

/// Combines 32 bytes into others.
pub fn xor_mix(dst: &mut [u8; 32], src: &[u8; 32])
    ensures
        final(dst)@ == pool_mixed(old(dst)@, src@),
{
    let mut i: usize = 0;
    while i < 32
        invariant
            i <= 32,
            forall|k: int| 0 <= k < i ==> dst@[k] == old(dst)@[k] ^ src@[k],
            forall|k: int| i <= k < 32 ==> dst@[k] == old(dst)@[k],
        decreases 32 - i,
    {
        dst[i] = dst[i] ^ src[i];
        i = i + 1;
    }
    assert(dst@ =~= pool_mixed(old(dst)@, src@));
}

/// The bytes of the first four hardware words.
pub fn fill_seed_buffer(words: &[u64]) -> (r: [u8; 32])
    requires
        words@.len() >= SEED_WORDS,
    ensures
        r@ == le64_words(words@.take(4)),
{
    let mut out: [u8; 32] = [0;32];
    let mut chunk: usize = 0;
    let ghost four = words@.take(4);
    proof {
        lemma_le64_words_len(four);
    }
    while chunk < 4
        invariant
            chunk <= 4,
            words@.len() >= 4,
            four == words@.take(4),
            le64_words(four).len() == 32,
            forall|k: int| 0 <= k < 8 * chunk ==> out@[k] == #[trigger] le64_words(four)[k],
        decreases 4 - chunk,
    {
        let word = u64_to_le(words[chunk]);
        let base: usize = 8 * chunk;
        let mut i: usize = 0;
        while i < 8
            invariant
                i <= 8,
                chunk < 4,
                base == 8 * chunk,
                words@.len() >= 4,
                four == words@.take(4),
                le64_words(four).len() == 32,
                word@ == le64(words@[chunk as int]),
                forall|k: int| 0 <= k < base + i ==> out@[k] == #[trigger] le64_words(four)[k],
            decreases 8 - i,
        {
            out[base + i] = word[i];
            proof {
                lemma_le64_words_at(four, chunk as int);
                assert(le64_words(four).subrange(8 * chunk as int, 8 * chunk + 8)[i as int]
                    == word@[i as int]);
            }
            i = i + 1;
        }
        chunk = chunk + 1;
    }
    assert(out@ =~= le64_words(four));
    out
}

impl CpuRngState {
    pub closed spec fn view(&self) -> PoolModel {
        PoolModel { pool: self.pool@, calls: self.call_count, cursor: self.pool_cursor as int }
    }

    /// A pool of zeros.
    pub fn init() -> (r: Self)
        ensures
            r@.wf(),
            r@.pool == Seq::new(32, |i: int| 0u8),
            r@.calls == 0,
            r@.cursor == 0,
    {
        let r = CpuRngState { pool: [0;32], call_count: 0, pool_cursor: 0 };
        assert(r.pool@ =~= Seq::new(32, |i: int| 0u8));
        r
    }

    /// Whether the next call refreshes the pool.
    pub fn reseed_due(&self) -> (r: bool)
        ensures
            r == self@.reseed_due(),
    {
        self.call_count % RESEED_INTERVAL == 0
    }

    /// How many hardware words the next call takes for as many bytes.
    pub fn words_needed(&self, len: usize) -> (r: usize)
        requires
            len <= usize::MAX - 48,
        ensures
            r == self@.words_need(len as nat),
    {
        if len == 0 {
            return 0;
        }
        let seed: usize = if self.call_count % RESEED_INTERVAL == 0 {
            SEED_WORDS
        } else {
            0
        };
        seed + (len + 7) / 8
    }
}

/// Makes the pool of a processor of four hardware words.
pub fn init_cpu(words: &[u64]) -> (r: CpuRngState)
    requires
        words@.len() >= SEED_WORDS,
    ensures
        r@.wf(),
        r@.pool == le64_words(words@.take(4)),
        r@.calls == 0,
        r@.cursor == 0,
{
    CpuRngState { pool: fill_seed_buffer(words), call_count: 0, pool_cursor: 0 }
}

/// Combines four hardware words into the pool at once.
pub fn reseed_cpu(state: &mut CpuRngState, words: &[u64])
    requires
        old(state)@.wf(),
        words@.len() >= SEED_WORDS,
    ensures
        final(state)@.wf(),
        final(state)@ == old(state)@.reseeded(words@),
{
    let fresh = fill_seed_buffer(words);
    xor_mix(&mut state.pool, &fresh);
}

/// Draws an output word, which is bound to the pool and to the hardware word.
pub fn draw_8_bytes(state: &mut CpuRngState, hardware_word: u64) -> (r: [u8; 8])
    requires
        old(state)@.wf(),
    ensures
        final(state)@.wf(),
        final(state)@ == old(state)@.drawn(1),
        r@ == le64(hardware_word ^ from_le64(old(state)@.pool, old(state)@.cursor)),
{
    let cursor: usize = state.pool_cursor;
    let pool_word: u64 = u64_from_le(&state.pool, cursor);
    state.pool_cursor = (cursor + 8) % 32;
    u64_to_le(hardware_word ^ pool_word)
}

/// Fills a buffer. The hardware words go into the pool first, where that is
/// due, and then one into each eight bytes of the output.
pub fn get_random_bytes(state: &mut CpuRngState, buffer: &mut [u8], words: &[u64])
    requires
        old(state)@.wf(),
        words@.len() >= old(state)@.words_need(old(buffer)@.len()),
    ensures
        final(state)@.wf(),
        final(state)@ == old(state)@.after(words@, old(buffer)@.len()),
        final(buffer)@ == old(state)@.random(words@, old(buffer)@.len()),
{
    let len: usize = buffer.len();
    if len == 0 {
        assert(buffer@ =~= old(state)@.random(words@, 0));
        return;
    }
    let ghost need = old(state)@.seed_need();
    let ghost called = old(state)@.called(words@);
    let ghost rest = words@.skip(need);
    let mut next: usize = 0;
    if state.call_count % RESEED_INTERVAL == 0 {
        let fresh = fill_seed_buffer(words);
        xor_mix(&mut state.pool, &fresh);
        next = SEED_WORDS;
    }
    state.call_count = state.call_count.wrapping_add(1);
    let ghost first: usize = next;
    assert(state@ == called);
    let mut i: usize = 0;
    assert(called.drawn(0) == called);
    while i < len
        invariant
            i <= len,
            buffer@.len() == len,
            called.wf(),
            rest == words@.skip(first as int),
            words@.len() >= first + (len + 7) / 8,
            i < len ==> i % 8 == 0,
            next == first + (i + 7) / 8,
            state@ == called.drawn((i + 7) / 8),
            state@.wf(),
            forall|k: int| 0 <= k < i ==> buffer@[k] == #[trigger] called.output(rest, len as nat)[k],
        decreases len - i,
    {
        let ghost n = i as int / 8;
        let ghost before = state@;
        let word = draw_8_bytes(state, words[next]);
        assert(rest[n] == words@[next as int]);
        assert(word@ == le64(called.output_word(rest, n)));
        let count: usize = if len - i < 8 {
            len - i
        } else {
            8
        };
        let mut k: usize = 0;
        while k < count
            invariant
                k <= count <= 8,
                i + count <= len,
                i == 8 * n,
                buffer@.len() == len,
                word@ == le64(called.output_word(rest, n)),
                forall|j: int|
                    0 <= j < i + k ==> buffer@[j] == #[trigger] called.output(rest, len as nat)[j],
            decreases count - k,
        {
            buffer[i + k] = word[k];
            assert((i + k) / 8 == n && (i + k) % 8 == k);
            k = k + 1;
        }
        assert((called.cursor + 8 * (n + 1)) % 32 == ((called.cursor + 8 * n) % 32 + 8) % 32);
        next = next + 1;
        i = i + count;
        assert((i + 7) / 8 == n + 1);
        assert(state@ == called.drawn(n + 1));
    }
    assert(buffer@ =~= called.output(rest, len as nat));
}

/// Gives random bytes.
pub fn get_random_bytes_vec(state: &mut CpuRngState, length: usize, words: &[u64]) -> (r: Vec<u8>)
    requires
        old(state)@.wf(),
        words@.len() >= old(state)@.words_need(length as nat),
    ensures
        final(state)@.wf(),
        final(state)@ == old(state)@.after(words@, length as nat),
        r@ == old(state)@.random(words@, length as nat),
        r@.len() == length,
{
    let mut buffer: Vec<u8> = Vec::new();
    let mut i: usize = 0;
    while i < length
        invariant
            i <= length,
            buffer@.len() == i,
        decreases length - i,
    {
        buffer.push(0);
        i = i + 1;
    }
    get_random_bytes(state, buffer.as_mut_slice(), words);
    buffer
}

/// Combining bytes into the pool loses nothing: combining the same bytes again
/// gives the pool back.
pub proof fn mixing_is_undone(pool: Seq<u8>, fresh: Seq<u8>)
    requires
        pool.len() == 32,
    ensures
        pool_mixed(pool_mixed(pool, fresh), fresh) == pool,
{
    assert forall|i: int| 0 <= i < 32 implies pool_mixed(pool_mixed(pool, fresh), fresh)[i]
        == pool[i] by {
        lemma_xor_twice(pool[i], fresh[i]);
    }
    assert(pool_mixed(pool_mixed(pool, fresh), fresh) =~= pool);
}

pub proof fn lemma_xor_twice(x: u8, y: u8)
    ensures
        x ^ y ^ y == x,
{
    assert(x ^ y ^ y == x) by (bit_vector);
}

/// Successive output words are bound to different words of the pool, and after
/// four of them it begins anew.
pub proof fn draws_go_round(m: PoolModel, a: int, b: int)
    requires
        m.wf(),
        0 <= a < b < 4,
    ensures
        m.drawn(a).cursor != m.drawn(b).cursor,
        m.drawn(4) == m,
        m.drawn(a).drawn(b) == m.drawn(a + b),
{
}

/// The pool is refreshed by every call that follows a whole number of
/// intervals, and by no other, also where the count of calls wraps.
pub proof fn reseeds_are_periodic(m: PoolModel, words: Seq<u64>, len: nat)
    requires
        m.wf(),
    ensures
        m.called(words).calls % RESEED_INTERVAL == (m.calls % RESEED_INTERVAL + 1) % (
        RESEED_INTERVAL as int),
        m.after(words, len).reseed_due() == if len == 0 {
            m.reseed_due()
        } else {
            m.calls % RESEED_INTERVAL == RESEED_INTERVAL - 1
        },
        !m.reseed_due() ==> m.called(words).pool == m.pool,
{
}

/// A hardware word goes into eight output bytes, least significant first, after
/// it was combined with the word of the pool that the cursor has reached. The
/// pool has four words, which are taken in turn.
pub proof fn output_bytes(p: PoolModel, words: Seq<u64>, len: nat, n: int, k: int)
    requires
        p.wf(),
        0 <= n,
        0 <= k < 8,
        8 * n + k < len,
    ensures
        p.output(words, len).len() == len,
        p.output(words, len)[8 * n + k] == le64(
            words[n] ^ from_le64(p.pool, 8 * ((p.cursor / 8 + n) % 4)),
        )[k],
{
    assert((8 * n + k) / 8 == n && (8 * n + k) % 8 == k);
    assert((p.cursor + 8 * n) % 32 == 8 * ((p.cursor / 8 + n) % 4));
}

/// Drawing on is drawing more: the bytes after whole words are those that the
/// other words and the pool give then.
pub proof fn outputs_add_up(p: PoolModel, words: Seq<u64>, n: nat, len: nat)
    requires
        p.wf(),
        8 * n + len <= 8 * words.len(),
    ensures
        p.output(words, 8 * n + len) == p.output(words, 8 * n) + p.drawn(n as int).output(
            words.skip(n as int),
            len,
        ),
        p.drawn(n as int).wf(),
        p.drawn(n as int).pool == p.pool,
        p.drawn(n as int).calls == p.calls,
{
    let rest = p.drawn(n as int).output(words.skip(n as int), len);
    let all = p.output(words, 8 * n + len);
    assert forall|i: int| 8 * n <= i < 8 * n + len implies #[trigger] all[i] == rest[i - 8 * n] by {
        let j = i - 8 * n;
        assert(i / 8 == n + j / 8 && i % 8 == j % 8);
        assert((p.cursor + 8 * (n + j / 8)) % 32 == ((p.cursor + 8 * n) % 32 + 8 * (j / 8)) % 32);
        assert(words.skip(n as int)[j / 8] == words[n + j / 8]);
    }
    assert(all =~= p.output(words, 8 * n) + rest);
}

/// Every sixty-fourth call first combines four hardware words into the pool,
/// byte by byte; it takes four words more. A call takes a word for each eight
/// bytes or part of them, and none for nothing.
pub proof fn calls_take_words(p: PoolModel, words: Seq<u64>, len: nat, i: int)
    requires
        p.wf(),
        0 <= i < 32,
        words.len() >= 4,
    ensures
        p.words_need(0) == 0,
        len > 0 && p.calls % 64 != 0 ==> 8 * p.words_need(len) - 8 < len <= 8 * p.words_need(len),
        len > 0 && p.calls % 64 == 0 ==> 8 * p.words_need(len) - 40 < len <= 8 * p.words_need(len)
            - 32,
        p.calls % 64 != 0 ==> p.called(words).pool == p.pool && p.random(words, len) == p.called(
            words,
        ).output(words, len),
        p.calls % 64 == 0 ==> p.called(words).pool[i] == p.pool[i] ^ le64(words[i / 8])[i % 8]
            && p.random(words, len) == p.called(words).output(words.skip(4), len),
        p.called(words).calls == p.calls.wrapping_add(1),
        p.called(words).cursor == p.cursor,
        p.after(words, 0) == p,
        len > 0 ==> p.after(words, len) == p.called(words).drawn((len + 7) as int / 8),
{
    let four = words.take(4);
    lemma_le64_words_at(four, i / 8);
    assert(le64_words(four).subrange(8 * (i / 8), 8 * (i / 8) + 8)[i % 8] == le64_words(four)[i]);
    assert(words.skip(0) =~= words);
}

/// Seeding asks RDSEED first, if it is there; anything else asks RDRAND first,
/// if that is there; what is not there is not asked.
pub proof fn sources_are_asked_in_order(prefer_seed: bool, rdseed: bool, rdrand: bool, r: Source)
    requires
        call_ensures(first_source, (prefer_seed, rdseed, rdrand), r),
    ensures
        r == Source::Seed <==> prefer_seed && rdseed,
        r == Source::Generator <==> rdrand && !(prefer_seed && rdseed),
        r == Source::Jitter <==> !rdrand && !(prefer_seed && rdseed),
{
}

/// A product is folded by combining its two halves. It is the same for the
/// factors in either order, and a small product is itself.
pub proof fn products_are_folded(a: u64, b: u64, high: u64, low: u64)
    ensures
        a * b == 0x1_0000_0000_0000_0000 * high + low ==> folded_product(a, b) == low ^ high,
        folded_product(a, b) == folded_product(b, a),
        a * b <= u64::MAX ==> folded_product(a, b) == (a * b) as u64 ^ 0,
{
    assert(a * b == b * a) by (nonlinear_arith);
}

} // verus!
