//! Authenticated encryption with AES-256 in Galois/Counter Mode.
//!
//! A sealed message is the tag (16 bytes), the initialization vector (12
//! bytes) and the ciphertext. There is no additional authenticated data.

use vstd::prelude::*;

use super::aes::{aes256_encrypt_block, encrypted, schedule_of, KeySchedule};
use crate::bytes::{
    append, be32, be64, bytes_are_digits_32, bytes_are_digits_64, constant_time_eq, copy_range, from_be32, u32_from_be, u32_to_be, u64_to_be,
};
use crate::crypto::rng::{get_random_bytes, lemma_xor_twice, CpuRngState};

verus! {

/// The length of a tag.
pub const TAG_SIZE: usize = 16;

/// The length of an initialization vector.
pub const IV_SIZE: usize = 12;

/// How much longer a sealed message is.
pub const GCM_OVERHEAD: usize = 28;

/// Why a message is not opened.
#[derive(Debug, Clone, Copy, PartialEq, Eq, Structural)]
pub enum AesGcmError {
    /// The tag is not that of the message.
    AuthenticationFailure,
    /// The message is too short to hold a tag and an initialization vector.
    CiphertextTooShort,
}

/// The reduction by x^128 + x^7 + x^2 + x + 1, whose lowest coefficients stand
/// at the highest bits.
pub const REDUCTION: u128 = 0xe100_0000_0000_0000_0000_0000_0000_0000;

/// The number whose bytes, most significant first, are the sixteen.
pub open spec fn from_be128(s: Seq<u8>) -> u128 {
    (s[0] as u128) << 120 | (s[1] as u128) << 112 | (s[2] as u128) << 104 | (s[3] as u128) << 96 | (
    s[4] as u128) << 88 | (s[5] as u128) << 80 | (s[6] as u128) << 72 | (s[7] as u128) << 64 | (
    s[8] as u128) << 56 | (s[9] as u128) << 48 | (s[10] as u128) << 40 | (s[11] as u128) << 32 | (
    s[12] as u128) << 24 | (s[13] as u128) << 16 | (s[14] as u128) << 8 | (s[15] as u128)
}

/// The sixteen bytes of a number, most significant first.
pub open spec fn be128(x: u128) -> Seq<u8> {
    Seq::new(16, |i: int| (x >> (120 - 8 * i) as u32) as u8)
}

fn u128_from_be(s: &[u8; 16]) -> (r: u128)
    ensures
        r == from_be128(s@),
{
    (s[0] as u128) << 120 | (s[1] as u128) << 112 | (s[2] as u128) << 104 | (s[3] as u128) << 96 | (
    s[4] as u128) << 88 | (s[5] as u128) << 80 | (s[6] as u128) << 72 | (s[7] as u128) << 64 | (
    s[8] as u128) << 56 | (s[9] as u128) << 48 | (s[10] as u128) << 40 | (s[11] as u128) << 32 | (
    s[12] as u128) << 24 | (s[13] as u128) << 16 | (s[14] as u128) << 8 | (s[15] as u128)
}

fn u128_to_be(x: u128) -> (r: [u8; 16])
    ensures
        r@ == be128(x),
{
    let mut r: [u8; 16] = [0;16];
    let mut i: usize = 0;
    while i < 16
        invariant
            i <= 16,
            forall|k: int| 0 <= k < i ==> r@[k] == be128(x)[k],
        decreases 16 - i,
    {
        let shift: u32 = 120 - 8 * (i as u32);
        r[i] = (x >> shift) as u8;
        i = i + 1;
    }
    assert(r@ =~= be128(x));
    r
}

/// A field element times x, where the highest bit is the coefficient of one.
pub open spec fn times_x(v: u128) -> u128 {
    if v & 1 == 1 {
        (v >> 1u32) ^ REDUCTION
    } else {
        v >> 1u32
    }
}

/// A field element times x^n.
pub open spec fn times_x_power(v: u128, n: nat) -> u128
    decreases n,
{
    if n == 0 {
        v
    } else {
        times_x(times_x_power(v, (n - 1) as nat))
    }
}

/// The sum of x * x^i over the coefficients of y that are one, of the first
/// `n`.
pub open spec fn partial_product(x: u128, y: u128, n: nat) -> u128
    decreases n,
{
    if n == 0 {
        0
    } else {
        let sum = partial_product(x, y, (n - 1) as nat);
        if (y >> (128 - n) as u32) & 1 == 1 {
            sum ^ times_x_power(x, (n - 1) as nat)
        } else {
            sum
        }
    }
}

/// The product of two field elements, as bytes.
pub open spec fn field_product(x: Seq<u8>, y: Seq<u8>) -> Seq<u8> {
    be128(partial_product(from_be128(x), from_be128(y), 128))
}

/// Multiplies two field elements.
pub fn gf128_mul(x: &[u8; 16], y: &[u8; 16]) -> (r: [u8; 16])
    ensures
        r@ == field_product(x@, y@),
{
    let xn: u128 = u128_from_be(x);
    let yn: u128 = u128_from_be(y);
    let mut z: u128 = 0;
    let mut v: u128 = xn;
    let mut i: u32 = 0;
    while i < 128
        invariant
            i <= 128,
            z == partial_product(xn, yn, i as nat),
            v == times_x_power(xn, i as nat),
        decreases 128 - i,
    {
        let bit: u128 = (yn >> (127 - i)) & 1;
        if bit == 1 {
            z = z ^ v;
        }
        if v & 1 == 1 {
            v = (v >> 1) ^ REDUCTION;
        } else {
            v = v >> 1;
        }
        i = i + 1;
    }
    u128_to_be(z)
}

/// Sixteen bytes combined with sixteen others.
pub open spec fn xored(a: Seq<u8>, b: Seq<u8>) -> Seq<u8> {
    Seq::new(16, |i: int| a[i] ^ b[i])
}

/// The hash value after one more block.
pub open spec fn hashed_block(y: Seq<u8>, h: Seq<u8>, block: Seq<u8>) -> Seq<u8> {
    field_product(xored(y, block), h)
}

/// Block `i` of the data, filled up with zeros.
pub open spec fn data_block(data: Seq<u8>, i: int) -> Seq<u8> {
    Seq::new(
        16,
        |k: int|
            if 16 * i + k < data.len() {
                data[16 * i + k]
            } else {
                0
            },
    )
}

/// The hash value after the first `n` blocks of the data.
pub open spec fn hashed_blocks(y: Seq<u8>, h: Seq<u8>, data: Seq<u8>, n: nat) -> Seq<u8>
    decreases n,
{
    if n == 0 {
        y
    } else {
        hashed_block(
            hashed_blocks(y, h, data, (n - 1) as nat),
            h,
            data_block(data, n - 1),
        )
    }
}

/// The number of blocks that the data takes.
pub open spec fn block_count(len: nat) -> nat {
    (len + 15) / 16
}

/// A hash that is being computed.
pub struct Ghash {
    y: [u8; 16],
    h: [u8; 16],
}

impl Ghash {
    /// The hash value so far.
    pub closed spec fn value(&self) -> Seq<u8> {
        self.y@
    }

    /// The key of the hash.
    pub closed spec fn subkey(&self) -> Seq<u8> {
        self.h@
    }

    /// Begins a hash.
    pub fn new(h: [u8; 16]) -> (r: Self)
        ensures
            r.value() == Seq::new(16, |i: int| 0u8),
            r.subkey() == h@,
    {
        let r = Ghash { y: [0;16], h };
        assert(r.y@ =~= Seq::new(16, |i: int| 0u8));
        r
    }

    /// Adds a block.
    pub fn update(&mut self, block: &[u8; 16])
        ensures
            final(self).value() == hashed_block(old(self).value(), old(self).subkey(), block@),
            final(self).subkey() == old(self).subkey(),
    {
        let sum = xor_16(&self.y, block);
        self.y = gf128_mul(&sum, &self.h);
    }

    /// Adds data. The last block is filled up with zeros.
    pub fn update_bytes(&mut self, data: &[u8])
        ensures
            final(self).value() == hashed_blocks(
                old(self).value(),
                old(self).subkey(),
                data@,
                block_count(data@.len()),
            ),
            final(self).subkey() == old(self).subkey(),
    {
        let n: usize = data.len();
        let mut i: usize = 0;
        let mut at: usize = 0;
        while at < n
            invariant
                n == data@.len(),
                at == if 16 * i < n {
                    16 * i as int
                } else {
                    n as int
                },
                i <= block_count(n as nat),
                self.value() == hashed_blocks(
                    old(self).value(),
                    old(self).subkey(),
                    data@,
                    i as nat,
                ),
                self.subkey() == old(self).subkey(),
            decreases n - at,
        {
            let mut block: [u8; 16] = [0;16];
            let mut k: usize = 0;
            while k < 16 && k < n - at
                invariant
                    k <= 16,
                    at == 16 * i,
                    at + k <= n == data@.len(),
                    forall|j: int| 0 <= j < k ==> block@[j] == data@[at + j],
                    forall|j: int| k <= j < 16 ==> block@[j] == 0,
                decreases 16 - k,
            {
                block[k] = data[at + k];
                k = k + 1;
            }
            assert(block@ =~= data_block(data@, i as int));
            self.update(&block);
            i = i + 1;
            at = at + k;
        }
    }

    /// The hash value.
    pub fn finalize(&self) -> (r: [u8; 16])
        ensures
            r@ == self.value(),
    {
        self.y
    }
}

/// Combines sixteen bytes with sixteen others.
fn xor_16(a: &[u8; 16], b: &[u8; 16]) -> (r: [u8; 16])
    ensures
        r@ == xored(a@, b@),
{
    let mut r: [u8; 16] = [0;16];
    let mut i: usize = 0;
    while i < 16
        invariant
            i <= 16,
            forall|k: int| 0 <= k < i ==> r@[k] == a@[k] ^ b@[k],
        decreases 16 - i,
    {
        r[i] = a[i] ^ b[i];
        i = i + 1;
    }
    assert(r@ =~= xored(a@, b@));
    r
}

/// A counter block: the initialization vector and the counter.
pub open spec fn counter_block(iv: Seq<u8>, counter: u32) -> Seq<u8> {
    iv + be32(counter)
}

/// The first counter block, whose encryption masks the tag.
fn make_j0(iv: &[u8; 12]) -> (r: [u8; 16])
    ensures
        r@ == counter_block(iv@, 1),
{
    let mut j0: [u8; 16] = [0;16];
    let mut i: usize = 0;
    while i < 12
        invariant
            i <= 12,
            forall|k: int| 0 <= k < i ==> j0@[k] == iv@[k],
            forall|k: int| i <= k < 16 ==> j0@[k] == 0,
        decreases 12 - i,
    {
        j0[i] = iv[i];
        i = i + 1;
    }
    j0[15] = 0x01;
    proof {
        assert((1u32 >> 24) as u8 == 0 && (1u32 >> 16) as u8 == 0 && (1u32 >> 8) as u8 == 0)
            by (bit_vector);
        assert(j0@ =~= counter_block(iv@, 1));
    }
    j0
}

proof fn lemma_be32_round_trip(iv: Seq<u8>, x: u32)
    requires
        iv.len() == 12,
    ensures
        from_be32(counter_block(iv, x), 12) == x,
{
    assert(((x >> 24) as u8 as u32) << 24 | ((x >> 16) as u8 as u32) << 16 | ((x >> 8) as u8 as u32)
        << 8 | (x as u8 as u32) == x) by (bit_vector);
}

/// Advances the counter, which wraps.
fn inc32(block: &mut [u8; 16], Ghost(iv): Ghost<Seq<u8>>, Ghost(counter): Ghost<u32>)
    requires
        iv.len() == 12,
        old(block)@ == counter_block(iv, counter),
    ensures
        final(block)@ == counter_block(iv, counter.wrapping_add(1)),
{
    proof {
        lemma_be32_round_trip(iv, counter);
    }
    let ctr: u32 = u32_from_be(block, 12);
    let bytes = u32_to_be(ctr.wrapping_add(1));
    block[12] = bytes[0];
    block[13] = bytes[1];
    block[14] = bytes[2];
    block[15] = bytes[3];
    assert(block@ =~= counter_block(iv, counter.wrapping_add(1)));
}

/// Encrypts the counter block, and advances it.
fn ctr_keystream_block(
    counter_bytes: &mut [u8; 16],
    schedule: &KeySchedule,
    Ghost(iv): Ghost<Seq<u8>>,
    Ghost(counter): Ghost<u32>,
) -> (r: [u8; 16])
    requires
        iv.len() == 12,
        old(counter_bytes)@ == counter_block(iv, counter),
    ensures
        final(counter_bytes)@ == counter_block(iv, counter.wrapping_add(1)),
        r@ == encrypted(counter_block(iv, counter), schedule.round_keys@),
{
    let mut block: [u8; 16] = *counter_bytes;
    aes256_encrypt_block(&mut block, schedule);
    inc32(counter_bytes, Ghost(iv), Ghost(counter));
    block
}

/// The counter for block `i` of the data. The first counter is that of the
/// tag.
pub open spec fn data_counter(i: int) -> u32 {
    ((i + 2) % 0x1_0000_0000) as u32
}

/// The key stream for block `i` of the data.
pub open spec fn keystream(iv: Seq<u8>, round_keys: Seq<u8>, i: int) -> Seq<u8> {
    encrypted(counter_block(iv, data_counter(i)), round_keys)
}

/// Data combined with the key stream.
pub open spec fn streamed(data: Seq<u8>, iv: Seq<u8>, round_keys: Seq<u8>) -> Seq<u8> {
    Seq::new(data.len(), |k: int| data[k] ^ keystream(iv, round_keys, k / 16)[k % 16])
}

/// Encrypts or decrypts data in place.
fn ctr_apply_keystream(
    data: &mut Vec<u8>,
    ctr_block: &mut [u8; 16],
    schedule: &KeySchedule,
    Ghost(iv): Ghost<Seq<u8>>,
)
    requires
        iv.len() == 12,
        old(ctr_block)@ == counter_block(iv, 2),
    ensures
        final(data)@ == streamed(old(data)@, iv, schedule.round_keys@),
{
    let n: usize = data.len();
    let ghost rk = schedule.round_keys@;
    let ghost mut i: int = 0;
    let mut at: usize = 0;
    while at < n
        invariant
            n == data@.len() == old(data)@.len(),
            0 <= i,
            at == if 16 * i < n {
                16 * i
            } else {
                n as int
            },
            iv.len() == 12,
            rk == schedule.round_keys@,
            ctr_block@ == counter_block(iv, data_counter(i)),
            forall|j: int| 0 <= j < at ==> data@[j] == #[trigger] streamed(old(data)@, iv, rk)[j],
            forall|j: int| at <= j < n ==> data@[j] == old(data)@[j],
        decreases n - at,
    {
        let ks = ctr_keystream_block(ctr_block, schedule, Ghost(iv), Ghost(data_counter(i)));
        assert(data_counter(i).wrapping_add(1) == data_counter(i + 1));
        let mut k: usize = 0;
        while k < 16 && k < n - at
            invariant
                k <= 16,
                at == 16 * i,
                at + k <= n == data@.len(),
                n == old(data)@.len(),
                ks@ == keystream(iv, rk, i),
                forall|j: int|
                    0 <= j < at + k ==> data@[j] == #[trigger] streamed(old(data)@, iv, rk)[j],
                forall|j: int| at + k <= j < n ==> data@[j] == old(data)@[j],
            decreases 16 - k,
        {
            let p: usize = at + k;
            assert(p as int / 16 == i && p as int % 16 == k);
            let b: u8 = data[p];
            data[p] = b ^ ks[k];
            k = k + 1;
        }
        at = at + k;
        proof {
            i = i + 1;
        }
    }
    assert(data@ =~= streamed(old(data)@, iv, rk));
}

/// Zeros.
pub open spec fn zeros(n: nat) -> Seq<u8> {
    Seq::new(n, |i: int| 0u8)
}

/// The block of the lengths: none of additional data, and the ciphertext's in
/// bits.
pub open spec fn length_block(len: nat) -> Seq<u8> {
    zeros(8) + be64((len as u64).wrapping_mul(8))
}

/// The tag of a ciphertext.
pub open spec fn tag_of(ciphertext: Seq<u8>, iv: Seq<u8>, round_keys: Seq<u8>) -> Seq<u8> {
    let h = encrypted(zeros(16), round_keys);
    let data = hashed_blocks(zeros(16), h, ciphertext, block_count(ciphertext.len()));
    xored(
        hashed_block(data, h, length_block(ciphertext.len())),
        encrypted(counter_block(iv, 1), round_keys),
    )
}

/// Computes the tag of a ciphertext.
fn compute_tag(
    ciphertext: &[u8],
    j0: &[u8; 16],
    schedule: &KeySchedule,
    Ghost(iv): Ghost<Seq<u8>>,
) -> (r: [u8; 16])
    requires
        j0@ == counter_block(iv, 1),
    ensures
        r@ == tag_of(ciphertext@, iv, schedule.round_keys@),
{
    let mut h_block: [u8; 16] = [0;16];
    assert(h_block@ =~= zeros(16));
    aes256_encrypt_block(&mut h_block, schedule);
    let mut ghash = Ghash::new(h_block);
    assert(ghash.value() =~= zeros(16));
    ghash.update_bytes(ciphertext);
    let mut len_block: [u8; 16] = [0;16];
    let bits = u64_to_be((ciphertext.len() as u64).wrapping_mul(8));
    let mut i: usize = 0;
    while i < 8
        invariant
            i <= 8,
            forall|k: int| 0 <= k < 8 ==> len_block@[k] == 0,
            forall|k: int| 0 <= k < i ==> len_block@[8 + k] == bits@[k],
        decreases 8 - i,
    {
        len_block[8 + i] = bits[i];
        i = i + 1;
    }
    proof {
        let lb = length_block(ciphertext@.len());
        assert forall|k: int| 0 <= k < 16 implies len_block@[k] == lb[k] by {
            if k >= 8 {
                assert(len_block@[8 + (k - 8)] == bits@[k - 8]);
            }
        }
        assert(len_block@ =~= lb);
    }
    ghash.update(&len_block);
    let s = ghash.finalize();
    let mut tag_mask: [u8; 16] = *j0;
    aes256_encrypt_block(&mut tag_mask, schedule);
    xor_16(&s, &tag_mask)
}

/// A sealed message.
pub open spec fn sealed(key: Seq<u8>, iv: Seq<u8>, plaintext: Seq<u8>) -> Seq<u8> {
    let rk = schedule_of(key);
    let ciphertext = streamed(plaintext, iv, rk);
    tag_of(ciphertext, iv, rk) + iv + ciphertext
}

/// What opening a message gives.
pub open spec fn opened(key: Seq<u8>, message: Seq<u8>) -> Result<Seq<u8>, AesGcmError> {
    let rk = schedule_of(key);
    if message.len() < GCM_OVERHEAD {
        Err(AesGcmError::CiphertextTooShort)
    } else {
        let iv = message.subrange(16, 28);
        let ciphertext = message.skip(28);
        if message.take(16) != tag_of(ciphertext, iv, rk) {
            Err(AesGcmError::AuthenticationFailure)
        } else {
            Ok(streamed(ciphertext, iv, rk))
        }
    }
}

/// Seals a message under an initialization vector.
pub fn seal(key: &[u8; 32], iv: &[u8; 12], plaintext: &[u8]) -> (r: Vec<u8>)
    ensures
        r@ == sealed(key@, iv@, plaintext@),
        r@.len() == plaintext@.len() + GCM_OVERHEAD,
{
    let schedule = KeySchedule::new(key);
    let j0 = make_j0(iv);
    let mut ctr_block: [u8; 16] = j0;
    inc32(&mut ctr_block, Ghost(iv@), Ghost(1));
    let mut ciphertext = copy_range(plaintext, 0, plaintext.len());
    assert(ciphertext@ =~= plaintext@);
    ctr_apply_keystream(&mut ciphertext, &mut ctr_block, &schedule, Ghost(iv@));
    let tag = compute_tag(ciphertext.as_slice(), &j0, &schedule, Ghost(iv@));
    let mut output: Vec<u8> = Vec::new();
    append(&mut output, &tag);
    append(&mut output, iv);
    append(&mut output, ciphertext.as_slice());
    assert(output@ =~= sealed(key@, iv@, plaintext@));
    output
}

/// Seals a message under a fresh initialization vector, which is drawn from
/// the random number generator with the hardware words.
pub fn encrypt(key: &[u8; 32], plaintext: &[u8], rng: &mut CpuRngState, words: &[u64]) -> (r: Vec<
    u8,
>)
    requires
        old(rng)@.wf(),
        words@.len() >= old(rng)@.words_need(12),
    ensures
        final(rng)@.wf(),
        final(rng)@ == old(rng)@.after(words@, 12),
        r@ == sealed(key@, old(rng)@.random(words@, 12), plaintext@),
        r@.len() == plaintext@.len() + GCM_OVERHEAD,
{
    let mut iv: [u8; 12] = [0;12];
    get_random_bytes(rng, &mut iv, words);
    seal(key, &iv, plaintext)
}

/// Opens a message. Nothing is decrypted unless the tag is right.
pub fn decrypt(key: &[u8; 32], ciphertext: &[u8]) -> (r: Result<Vec<u8>, AesGcmError>)
    ensures
        match r {
            Ok(plaintext) => opened(key@, ciphertext@) == Ok::<Seq<u8>, AesGcmError>(plaintext@),
            Err(e) => opened(key@, ciphertext@) == Err::<Seq<u8>, AesGcmError>(e),
        },
{
    if ciphertext.len() < GCM_OVERHEAD {
        return Err(AesGcmError::CiphertextTooShort);
    }
    let received_tag = copy_range(ciphertext, 0, TAG_SIZE);
    let mut iv: [u8; 12] = [0;12];
    let mut i: usize = 0;
    while i < 12
        invariant
            i <= 12,
            ciphertext@.len() >= 28,
            forall|k: int| 0 <= k < i ==> iv@[k] == ciphertext@[16 + k],
        decreases 12 - i,
    {
        iv[i] = ciphertext[16 + i];
        i = i + 1;
    }
    let mut data = copy_range(ciphertext, GCM_OVERHEAD, ciphertext.len());
    proof {
        assert(received_tag@ =~= ciphertext@.take(16));
        assert(iv@ =~= ciphertext@.subrange(16, 28));
        assert(data@ =~= ciphertext@.skip(28));
    }
    let schedule = KeySchedule::new(key);
    let j0 = make_j0(&iv);
    let expected_tag = compute_tag(data.as_slice(), &j0, &schedule, Ghost(iv@));
    if !constant_time_eq(received_tag.as_slice(), &expected_tag) {
        return Err(AesGcmError::AuthenticationFailure);
    }
    let mut ctr_block: [u8; 16] = j0;
    inc32(&mut ctr_block, Ghost(iv@), Ghost(1));
    ctr_apply_keystream(&mut data, &mut ctr_block, &schedule, Ghost(iv@));
    Ok(data)
}

/// Combining data with the key stream twice gives the data back.
pub proof fn stream_is_its_own_inverse(data: Seq<u8>, iv: Seq<u8>, round_keys: Seq<u8>)
    ensures
        streamed(streamed(data, iv, round_keys), iv, round_keys) == data,
{
    let once = streamed(data, iv, round_keys);
    assert forall|k: int| 0 <= k < data.len() implies streamed(once, iv, round_keys)[k] == data[k] by {
        lemma_xor_twice(data[k], keystream(iv, round_keys, k / 16)[k % 16]);
    }
    assert(streamed(once, iv, round_keys) =~= data);
}

/// The parts of a message.
proof fn lemma_parts(tag: Seq<u8>, iv: Seq<u8>, ciphertext: Seq<u8>)
    requires
        tag.len() == 16,
        iv.len() == 12,
    ensures
        (tag + iv + ciphertext).take(16) == tag,
        (tag + iv + ciphertext).subrange(16, 28) == iv,
        (tag + iv + ciphertext).skip(28) == ciphertext,
        (tag + iv + ciphertext).skip(16) == iv + ciphertext,
{
    let message = tag + iv + ciphertext;
    assert(message.take(16) =~= tag);
    assert(message.subrange(16, 28) =~= iv);
    assert(message.skip(28) =~= ciphertext);
    assert(message.skip(16) =~= iv + ciphertext);
}

/// Opening a sealed message under the same key gives the message back.
pub proof fn open_undoes_seal(key: Seq<u8>, iv: Seq<u8>, plaintext: Seq<u8>)
    requires
        iv.len() == IV_SIZE,
    ensures
        opened(key, sealed(key, iv, plaintext)) == Ok::<Seq<u8>, AesGcmError>(plaintext),
{
    let rk = schedule_of(key);
    let message = sealed(key, iv, plaintext);
    let ciphertext = streamed(plaintext, iv, rk);
    lemma_parts(tag_of(ciphertext, iv, rk), iv, ciphertext);
    stream_is_its_own_inverse(plaintext, iv, rk);
}

/// A sealed message whose tag alone was changed is refused.
pub proof fn changed_tag_is_refused(key: Seq<u8>, iv: Seq<u8>, plaintext: Seq<u8>, tag: Seq<u8>)
    requires
        iv.len() == IV_SIZE,
        tag.len() == TAG_SIZE,
        tag != sealed(key, iv, plaintext).take(16),
    ensures
        opened(key, tag + sealed(key, iv, plaintext).skip(16)) == Err::<Seq<u8>, AesGcmError>(
            AesGcmError::AuthenticationFailure,
        ),
{
    let rk = schedule_of(key);
    let message = sealed(key, iv, plaintext);
    let ciphertext = streamed(plaintext, iv, rk);
    lemma_parts(tag_of(ciphertext, iv, rk), iv, ciphertext);
    lemma_parts(tag, iv, ciphertext);
    assert(message.skip(16) == iv + ciphertext);
    assert(tag + (iv + ciphertext) =~= tag + iv + ciphertext);
}

/// No counter block is used twice under one initialization vector, nor for the
/// data the one that masks the tag, as long as the counter does not wrap.
pub proof fn counter_blocks_differ(iv: Seq<u8>, i: int, j: int)
    requires
        iv.len() == IV_SIZE,
        0 <= i < j < 0xFFFF_FFFF,
    ensures
        counter_block(iv, data_counter(i)) != counter_block(iv, data_counter(j)),
        counter_block(iv, data_counter(i)) != counter_block(iv, 1),
        counter_block(iv, data_counter(j)) != counter_block(iv, 1),
{
    lemma_be32_round_trip(iv, data_counter(i));
    lemma_be32_round_trip(iv, data_counter(j));
    lemma_be32_round_trip(iv, 1);
}

/// Data takes as few blocks as will hold it.
pub proof fn blocks_hold_the_data(len: nat)
    ensures
        len <= 16 * block_count(len) < len + 16,
{
}

/// Bytes that are missing to a whole block count as zeros: data and the data
/// filled up with zeros have one hash.
pub proof fn missing_bytes_count_as_zeros(y: Seq<u8>, h: Seq<u8>, data: Seq<u8>, k: nat, n: nat)
    requires
        data.len() + k <= 16 * n,
    ensures
        hashed_blocks(y, h, data, n) == hashed_blocks(y, h, data + Seq::new(k, |i: int| 0u8), n),
    decreases n,
{
    let longer = data + Seq::new(k, |i: int| 0u8);
    assert forall|i: int| 0 <= i < n implies data_block(longer, i) == #[trigger] data_block(
        data,
        i,
    ) by {
        assert(data_block(longer, i) =~= data_block(data, i));
    }
    lemma_same_blocks(y, h, data, longer, n);
}

proof fn lemma_same_blocks(y: Seq<u8>, h: Seq<u8>, a: Seq<u8>, b: Seq<u8>, n: nat)
    requires
        forall|i: int| 0 <= i < n ==> data_block(b, i) == #[trigger] data_block(a, i),
    ensures
        hashed_blocks(y, h, a, n) == hashed_blocks(y, h, b, n),
    decreases n,
{
    if n > 0 {
        lemma_same_blocks(y, h, a, b, (n - 1) as nat);
        assert(data_block(b, n - 1) == data_block(a, n - 1));
    }
}

/// A whole block is hashed as it is: the hash value and the block are added and
/// multiplied with the key of the hash.
pub proof fn whole_block_is_hashed(y: Seq<u8>, h: Seq<u8>, block: Seq<u8>)
    requires
        block.len() == 16,
    ensures
        hashed_blocks(y, h, block, 1) == field_product(
            Seq::new(16, |i: int| y[i] ^ block[i]),
            h,
        ),
{
    reveal_with_fuel(hashed_blocks, 2);
    assert(data_block(block, 0) =~= block);
    assert(xored(y, block) =~= Seq::new(16, |i: int| y[i] ^ block[i]));
}

/// Blocks are hashed one after the other: the hash of what follows whole blocks
/// goes on from theirs, as if it had begun there.
pub proof fn hash_goes_on(y: Seq<u8>, h: Seq<u8>, first: Seq<u8>, n: nat, rest: Seq<u8>, m: nat)
    requires
        first.len() == 16 * n,
    ensures
        hashed_blocks(y, h, first + rest, n + m) == hashed_blocks(
            hashed_blocks(y, h, first, n),
            h,
            rest,
            m,
        ),
    decreases m,
{
    if m == 0 {
        assert forall|i: int| 0 <= i < n implies data_block(first + rest, i)
            == #[trigger] data_block(first, i) by {
            assert(data_block(first + rest, i) =~= data_block(first, i));
        }
        lemma_same_blocks(y, h, first, first + rest, n);
    } else {
        hash_goes_on(y, h, first, n, rest, (m - 1) as nat);
        assert(data_block(first + rest, n + m - 1) =~= data_block(rest, m - 1));
    }
}

proof fn lemma_no_terms()
    ensures
        0u128 ^ 0 == 0,
{
    assert(0u128 ^ 0 == 0) by (bit_vector);
}

/// Multiplication distributes over addition, which is without carry.
pub proof fn product_distributes(a: u128, b: u128, y: u128, n: nat)
    requires
        n <= 128,
    ensures
        partial_product(a ^ b, y, n) == partial_product(a, y, n) ^ partial_product(b, y, n),
        times_x_power(a ^ b, n) == times_x_power(a, n) ^ times_x_power(b, n),
    decreases n,
{
    if n == 0 {
        lemma_no_terms();
    } else {
        product_distributes(a, b, y, (n - 1) as nat);
        let (p, q) = (times_x_power(a, (n - 1) as nat), times_x_power(b, (n - 1) as nat));
        let (r, s) = (
            partial_product(a, y, (n - 1) as nat),
            partial_product(b, y, (n - 1) as nat),
        );
        let d = REDUCTION;
        assert({
            &&& ((p ^ q) & 1 == 1) == ((p & 1 == 1) != (q & 1 == 1))
            &&& (p ^ q) >> 1u32 == (p >> 1u32) ^ (q >> 1u32)
            &&& ((p >> 1u32) ^ (q >> 1u32)) ^ d == (p >> 1u32) ^ ((q >> 1u32) ^ d)
            &&& ((p >> 1u32) ^ (q >> 1u32)) ^ d == ((p >> 1u32) ^ d) ^ (q >> 1u32)
            &&& (p >> 1u32) ^ (q >> 1u32) == ((p >> 1u32) ^ d) ^ ((q >> 1u32) ^ d)
            &&& (r ^ s) ^ (p ^ q) == (r ^ p) ^ (s ^ q)
            &&& p & 1 == 0 || p & 1 == 1
            &&& q & 1 == 0 || q & 1 == 1
        }) by (bit_vector);
    }
}

/// A product adds up what the other factor's terms come to: the terms that two
/// factors share cancel out.
pub proof fn product_adds_terms(x: u128, a: u128, b: u128, n: nat)
    requires
        n <= 128,
    ensures
        partial_product(x, a ^ b, n) == partial_product(x, a, n) ^ partial_product(x, b, n),
    decreases n,
{
    if n == 0 {
        lemma_no_terms();
    } else {
        product_adds_terms(x, a, b, (n - 1) as nat);
        let k = (128 - n) as u32;
        let p = times_x_power(x, (n - 1) as nat);
        let (r, s) = (
            partial_product(x, a, (n - 1) as nat),
            partial_product(x, b, (n - 1) as nat),
        );
        assert({
            &&& (((a ^ b) >> k) & 1 == 1) == (((a >> k) & 1 == 1) != ((b >> k) & 1 == 1))
            &&& (r ^ s) ^ p == r ^ (s ^ p)
            &&& (r ^ s) ^ p == (r ^ p) ^ s
            &&& r ^ s == (r ^ p) ^ (s ^ p)
        }) by (bit_vector)
            requires
                k < 128,
        ;
    }
}

/// The block of the lengths gives no additional data, and the length of the
/// ciphertext in bits, most significant byte first.
pub proof fn lengths_are_in_bits(len: nat)
    requires
        8 * len <= u64::MAX,
    ensures
        length_block(len).len() == 16,
        forall|i: int| 0 <= i < 8 ==> #[trigger] length_block(len)[i] == 0,
        ({
            let b = length_block(len);
            8 * len == 0x100000000000000 * b[8] + 0x1000000000000 * b[9] + 0x10000000000 * b[10]
                + 0x100000000 * b[11] + 0x1000000 * b[12] + 0x10000 * b[13] + 0x100 * b[14] + b[15]
        }),
{
    bytes_are_digits_64((8 * len) as u64);
    assert((len as u64).wrapping_mul(8) == 8 * len);
    let b = length_block(len);
    assert forall|i: int| 8 <= i < 16 implies #[trigger] b[i] == be64((8 * len) as u64)[i - 8] by {}
}

/// The blocks of the data are counted from two on, in four bytes behind the
/// initialization vector, most significant first. One masks the tag.
pub proof fn counters_count_blocks(iv: Seq<u8>, i: int)
    requires
        iv.len() == 12,
        -1 <= i,
    ensures
        ({
            let b = counter_block(iv, data_counter(i));
            &&& b.len() == 16
            &&& b.take(12) == iv
            &&& 0x1000000 * b[12] + 0x10000 * b[13] + 0x100 * b[14] + b[15] == (i + 2)
                % 0x1_0000_0000
        }),
        data_counter(-1) == 1,
{
    bytes_are_digits_32(data_counter(i));
    let b = counter_block(iv, data_counter(i));
    assert(b.take(12) =~= iv);
    assert forall|k: int| 12 <= k < 16 implies #[trigger] b[k] == be32(data_counter(i))[k - 12] by {}
}

/// A byte of the key stream is that of the encrypted counter block, sixteen of
/// which belong to a block; what it is combined with does not matter.
pub proof fn stream_is_made_of_counter_blocks(
    data: Seq<u8>,
    iv: Seq<u8>,
    round_keys: Seq<u8>,
    i: int,
    k: int,
)
    requires
        0 <= i,
        0 <= k < 16,
        16 * i + k < data.len(),
    ensures
        streamed(data, iv, round_keys).len() == data.len(),
        streamed(data, iv, round_keys)[16 * i + k] == data[16 * i + k] ^ encrypted(
            counter_block(iv, ((i + 2) % 0x1_0000_0000) as u32),
            round_keys,
        )[k],
{
    assert((16 * i + k) / 16 == i && (16 * i + k) % 16 == k);
}

/// Only sealed messages are opened: what opens to a plaintext is that plaintext,
/// sealed under the initialization vector that the message carries.
pub proof fn only_sealed_messages_open(key: Seq<u8>, message: Seq<u8>, plaintext: Seq<u8>)
    requires
        opened(key, message) == Ok::<Seq<u8>, AesGcmError>(plaintext),
    ensures
        message.len() == plaintext.len() + 28,
        message == sealed(key, message.subrange(16, 28), plaintext),
{
    let rk = schedule_of(key);
    let iv = message.subrange(16, 28);
    stream_is_its_own_inverse(message.skip(28), iv, rk);
    assert(message =~= message.take(16) + iv + message.skip(28));
}

/// A message is too short if it cannot hold a tag and an initialization vector,
/// and for no other reason.
pub proof fn short_messages_are_refused(key: Seq<u8>, message: Seq<u8>)
    ensures
        opened(key, message) == Err::<Seq<u8>, AesGcmError>(AesGcmError::CiphertextTooShort)
            <==> message.len() < 28,
{
}

/// Hashing the data and then the lengths is hashing the data, filled up with
/// zeros, and the lengths.
pub proof fn lengths_are_hashed_last(y: Seq<u8>, h: Seq<u8>, c: Seq<u8>, lengths: Seq<u8>)
    requires
        lengths.len() == 16,
    ensures
        ({
            let n = block_count(c.len());
            hashed_blocks(y, h, c + zeros((16 * n - c.len()) as nat) + lengths, n + 1)
                == hashed_block(hashed_blocks(y, h, c, n), h, lengths)
        }),
{
    let n = block_count(c.len());
    let k = (16 * n - c.len()) as nat;
    let first = c + zeros(k);
    blocks_hold_the_data(c.len());
    missing_bytes_count_as_zeros(y, h, c, k, n);
    assert(zeros(k) =~= Seq::new(k, |i: int| 0u8));
    hash_goes_on(y, h, first, n, lengths, 1);
    lemma_one_block(hashed_blocks(y, h, c, n), h, lengths);
}

/// The block for the counter one.
proof fn lemma_counter_one(iv: Seq<u8>)
    ensures
        counter_block(iv, 1) == iv + seq![0u8, 0u8, 0u8, 1u8],
{
    bytes_are_digits_32(1);
    assert(be32(1) =~= seq![0u8, 0u8, 0u8, 1u8]);
}

/// The tag is the hash of the ciphertext and of the lengths, masked with the
/// block for the counter one. The key of the hash is the block of zeros,
/// encrypted.
pub proof fn tag_is_a_masked_hash(
    c: Seq<u8>,
    iv: Seq<u8>,
    round_keys: Seq<u8>,
    h: Seq<u8>,
    data: Seq<u8>,
    mask: Seq<u8>,
)
    requires
        h == encrypted(zeros(16), round_keys),
        data == hashed_blocks(zeros(16), h, c, block_count(c.len())),
        mask == encrypted(iv + seq![0u8, 0u8, 0u8, 1u8], round_keys),
    ensures
        tag_of(c, iv, round_keys) == xored(hashed_block(data, h, length_block(c.len())), mask),
{
    lemma_counter_one(iv);
}

/// A sealed message is the tag, the initialization vector, and a ciphertext as
/// long as the plaintext.
pub proof fn sealed_message_parts(key: Seq<u8>, iv: Seq<u8>, plaintext: Seq<u8>)
    requires
        iv.len() == 12,
    ensures
        ({
            let rk = schedule_of(key);
            let message = sealed(key, iv, plaintext);
            &&& message.len() == plaintext.len() + 28
            &&& message.subrange(16, 28) == iv
            &&& message.skip(28) == streamed(plaintext, iv, rk)
            &&& message.take(16) == tag_of(message.skip(28), iv, rk)
        }),
{
    let rk = schedule_of(key);
    let c = streamed(plaintext, iv, rk);
    lemma_parts(tag_of(c, iv, rk), iv, c);
}

proof fn lemma_one_block(y: Seq<u8>, h: Seq<u8>, block: Seq<u8>)
    requires
        block.len() == 16,
    ensures
        hashed_blocks(y, h, block, 1) == hashed_block(y, h, block),
{
    reveal_with_fuel(hashed_blocks, 2);
    assert(data_block(block, 0) =~= block);
}

/// Zeros are zeros, and sixteen bytes are combined bit by bit.
pub proof fn zeros_and_sums(n: nat, a: Seq<u8>, b: Seq<u8>)
    ensures
        zeros(n).len() == n,
        forall|i: int| 0 <= i < n ==> #[trigger] zeros(n)[i] == 0,
        xored(a, b).len() == 16,
        forall|i: int| 0 <= i < 16 ==> #[trigger] xored(a, b)[i] == a[i] ^ b[i],
{
}

/// Adding data to a hash adds it block by block. Data that does not fill its last
/// block is added as if it were filled up with zeros.
pub proof fn data_is_added_in_blocks(before: Ghash, data: &[u8], filled: &[u8], k: nat)
    requires
        filled@ == data@ + Seq::new(k, |i: int| 0u8),
        k < 16,
        filled@.len() % 16 == 0,
    ensures
        forall|a: &mut Ghash, b: &mut Ghash|
            *a == before && *b == before && #[trigger] call_ensures(
                Ghash::update_bytes,
                (a, data),
                (),
            ) && #[trigger] call_ensures(Ghash::update_bytes, (b, filled), ()) ==> {
                &&& final(a).value() == final(b).value()
                &&& final(a).subkey() == before.subkey()
                &&& final(a).value() == hashed_blocks(
                    before.value(),
                    before.subkey(),
                    filled@,
                    filled@.len() / 16,
                )
            },
{
    let n = filled@.len() / 16;
    assert(block_count(data@.len()) == n && block_count(filled@.len()) == n);
    missing_bytes_count_as_zeros(before.value(), before.subkey(), data@, k, n);
}

/// A sealed message is the tag, the vector and as many bytes as the text has; who
/// opens it with the same key gets the text back.
pub proof fn messages_come_back(
    key: &[u8; 32],
    iv: &[u8; 12],
    plaintext: &[u8],
    message: Vec<u8>,
    received: &[u8],
    r: Result<Vec<u8>, AesGcmError>,
)
    requires
        call_ensures(seal, (key, iv, plaintext), message),
        received@ == message@,
        call_ensures(decrypt, (key, received), r),
    ensures
        message@ == sealed(key@, iv@, plaintext@),
        message@.len() == plaintext@.len() + 28,
        message@.subrange(16, 28) == iv@,
        r matches Ok(text) && text@ == plaintext@,
{
    open_undoes_seal(key@, iv@, plaintext@);
    let rk = schedule_of(key@);
    let ciphertext = streamed(plaintext@, iv@, rk);
    lemma_parts(tag_of(ciphertext, iv@, rk), iv@, ciphertext);
}

} // verus!
