//! The AES-256 block cipher, as in FIPS 197.

use vstd::prelude::*;

verus! {

pub const AES256_ROUNDS: usize = 14;

/// One round key more than there are rounds.
pub const AES256_ROUND_KEYS: usize = 15;

/// The size of a block in bytes.
pub const BLOCK_SIZE: usize = 16;

/// The size of a key in bytes.
pub const KEY256_SIZE: usize = 32;

/// The substitution of bytes.
pub const SBOX: [u8; 256] = [
    0x63, 0x7c, 0x77, 0x7b, 0xf2, 0x6b, 0x6f, 0xc5,
    0x30, 0x01, 0x67, 0x2b, 0xfe, 0xd7, 0xab, 0x76,
    0xca, 0x82, 0xc9, 0x7d, 0xfa, 0x59, 0x47, 0xf0,
    0xad, 0xd4, 0xa2, 0xaf, 0x9c, 0xa4, 0x72, 0xc0,
    0xb7, 0xfd, 0x93, 0x26, 0x36, 0x3f, 0xf7, 0xcc,
    0x34, 0xa5, 0xe5, 0xf1, 0x71, 0xd8, 0x31, 0x15,
    0x04, 0xc7, 0x23, 0xc3, 0x18, 0x96, 0x05, 0x9a,
    0x07, 0x12, 0x80, 0xe2, 0xeb, 0x27, 0xb2, 0x75,
    0x09, 0x83, 0x2c, 0x1a, 0x1b, 0x6e, 0x5a, 0xa0,
    0x52, 0x3b, 0xd6, 0xb3, 0x29, 0xe3, 0x2f, 0x84,
    0x53, 0xd1, 0x00, 0xed, 0x20, 0xfc, 0xb1, 0x5b,
    0x6a, 0xcb, 0xbe, 0x39, 0x4a, 0x4c, 0x58, 0xcf,
    0xd0, 0xef, 0xaa, 0xfb, 0x43, 0x4d, 0x33, 0x85,
    0x45, 0xf9, 0x02, 0x7f, 0x50, 0x3c, 0x9f, 0xa8,
    0x51, 0xa3, 0x40, 0x8f, 0x92, 0x9d, 0x38, 0xf5,
    0xbc, 0xb6, 0xda, 0x21, 0x10, 0xff, 0xf3, 0xd2,
    0xcd, 0x0c, 0x13, 0xec, 0x5f, 0x97, 0x44, 0x17,
    0xc4, 0xa7, 0x7e, 0x3d, 0x64, 0x5d, 0x19, 0x73,
    0x60, 0x81, 0x4f, 0xdc, 0x22, 0x2a, 0x90, 0x88,
    0x46, 0xee, 0xb8, 0x14, 0xde, 0x5e, 0x0b, 0xdb,
    0xe0, 0x32, 0x3a, 0x0a, 0x49, 0x06, 0x24, 0x5c,
    0xc2, 0xd3, 0xac, 0x62, 0x91, 0x95, 0xe4, 0x79,
    0xe7, 0xc8, 0x37, 0x6d, 0x8d, 0xd5, 0x4e, 0xa9,
    0x6c, 0x56, 0xf4, 0xea, 0x65, 0x7a, 0xae, 0x08,
    0xba, 0x78, 0x25, 0x2e, 0x1c, 0xa6, 0xb4, 0xc6,
    0xe8, 0xdd, 0x74, 0x1f, 0x4b, 0xbd, 0x8b, 0x8a,
    0x70, 0x3e, 0xb5, 0x66, 0x48, 0x03, 0xf6, 0x0e,
    0x61, 0x35, 0x57, 0xb9, 0x86, 0xc1, 0x1d, 0x9e,
    0xe1, 0xf8, 0x98, 0x11, 0x69, 0xd9, 0x8e, 0x94,
    0x9b, 0x1e, 0x87, 0xe9, 0xce, 0x55, 0x28, 0xdf,
    0x8c, 0xa1, 0x89, 0x0d, 0xbf, 0xe6, 0x42, 0x68,
    0x41, 0x99, 0x2d, 0x0f, 0xb0, 0x54, 0xbb, 0x16,
];

/// The substitution that undoes [`SBOX`].
pub const INV_SBOX: [u8; 256] = [
    0x52, 0x09, 0x6a, 0xd5, 0x30, 0x36, 0xa5, 0x38,
    0xbf, 0x40, 0xa3, 0x9e, 0x81, 0xf3, 0xd7, 0xfb,
    0x7c, 0xe3, 0x39, 0x82, 0x9b, 0x2f, 0xff, 0x87,
    0x34, 0x8e, 0x43, 0x44, 0xc4, 0xde, 0xe9, 0xcb,
    0x54, 0x7b, 0x94, 0x32, 0xa6, 0xc2, 0x23, 0x3d,
    0xee, 0x4c, 0x95, 0x0b, 0x42, 0xfa, 0xc3, 0x4e,
    0x08, 0x2e, 0xa1, 0x66, 0x28, 0xd9, 0x24, 0xb2,
    0x76, 0x5b, 0xa2, 0x49, 0x6d, 0x8b, 0xd1, 0x25,
    0x72, 0xf8, 0xf6, 0x64, 0x86, 0x68, 0x98, 0x16,
    0xd4, 0xa4, 0x5c, 0xcc, 0x5d, 0x65, 0xb6, 0x92,
    0x6c, 0x70, 0x48, 0x50, 0xfd, 0xed, 0xb9, 0xda,
    0x5e, 0x15, 0x46, 0x57, 0xa7, 0x8d, 0x9d, 0x84,
    0x90, 0xd8, 0xab, 0x00, 0x8c, 0xbc, 0xd3, 0x0a,
    0xf7, 0xe4, 0x58, 0x05, 0xb8, 0xb3, 0x45, 0x06,
    0xd0, 0x2c, 0x1e, 0x8f, 0xca, 0x3f, 0x0f, 0x02,
    0xc1, 0xaf, 0xbd, 0x03, 0x01, 0x13, 0x8a, 0x6b,
    0x3a, 0x91, 0x11, 0x41, 0x4f, 0x67, 0xdc, 0xea,
    0x97, 0xf2, 0xcf, 0xce, 0xf0, 0xb4, 0xe6, 0x73,
    0x96, 0xac, 0x74, 0x22, 0xe7, 0xad, 0x35, 0x85,
    0xe2, 0xf9, 0x37, 0xe8, 0x1c, 0x75, 0xdf, 0x6e,
    0x47, 0xf1, 0x1a, 0x71, 0x1d, 0x29, 0xc5, 0x89,
    0x6f, 0xb7, 0x62, 0x0e, 0xaa, 0x18, 0xbe, 0x1b,
    0xfc, 0x56, 0x3e, 0x4b, 0xc6, 0xd2, 0x79, 0x20,
    0x9a, 0xdb, 0xc0, 0xfe, 0x78, 0xcd, 0x5a, 0xf4,
    0x1f, 0xdd, 0xa8, 0x33, 0x88, 0x07, 0xc7, 0x31,
    0xb1, 0x12, 0x10, 0x59, 0x27, 0x80, 0xec, 0x5f,
    0x60, 0x51, 0x7f, 0xa9, 0x19, 0xb5, 0x4a, 0x0d,
    0x2d, 0xe5, 0x7a, 0x9f, 0x93, 0xc9, 0x9c, 0xef,
    0xa0, 0xe0, 0x3b, 0x4d, 0xae, 0x2a, 0xf5, 0xb0,
    0xc8, 0xeb, 0xbb, 0x3c, 0x83, 0x53, 0x99, 0x61,
    0x17, 0x2b, 0x04, 0x7e, 0xba, 0x77, 0xd6, 0x26,
    0xe1, 0x69, 0x14, 0x63, 0x55, 0x21, 0x0c, 0x7d,
];

/// The substitution of `n` bytes from `from` on is undone.
spec fn undone(from: int, n: nat) -> bool
    decreases n,
{
    n == 0 || (undone(from, (n - 1) as nat) && INV_SBOX@[SBOX@[from + n - 1] as int] == from + n
        - 1 && SBOX@[INV_SBOX@[from + n - 1] as int] == from + n - 1)
}

proof fn lemma_undone(from: int, n: nat, i: int)
    requires
        undone(from, n),
        from <= i < from + n,
    ensures
        INV_SBOX@[SBOX@[i] as int] == i,
        SBOX@[INV_SBOX@[i] as int] == i,
    decreases n,
{
    if i < from + n - 1 {
        lemma_undone(from, (n - 1) as nat, i);
    }
}

/// Substituting a byte and substituting it back gives the byte, in either
/// order.
#[verifier::spinoff_prover]
#[verifier::rlimit(60)]
pub proof fn substitution_is_undone(x: u8)
    ensures
        INV_SBOX@[SBOX@[x as int] as int] == x,
        SBOX@[INV_SBOX@[x as int] as int] == x,
{
    assert(undone(0, 32)) by {
        reveal_with_fuel(undone, 33);
    }
    assert(undone(32, 32)) by {
        reveal_with_fuel(undone, 33);
    }
    assert(undone(64, 32)) by {
        reveal_with_fuel(undone, 33);
    }
    assert(undone(96, 32)) by {
        reveal_with_fuel(undone, 33);
    }
    assert(undone(128, 32)) by {
        reveal_with_fuel(undone, 33);
    }
    assert(undone(160, 32)) by {
        reveal_with_fuel(undone, 33);
    }
    assert(undone(192, 32)) by {
        reveal_with_fuel(undone, 33);
    }
    assert(undone(224, 32)) by {
        reveal_with_fuel(undone, 33);
    }
    lemma_undone((x as int / 32) * 32, 32, x as int);
}

/// The round constants of the key schedule.
pub const RCON: [u8; 10] = [0x01, 0x02, 0x04, 0x08, 0x10, 0x20, 0x40, 0x80, 0x1b, 0x36];

/// A byte times two in the field of AES.
pub open spec fn doubled(x: u8) -> u8 {
    if x < 128 {
        x << 1u8
    } else {
        (x << 1u8) ^ 0x1b
    }
}

/// Multiplies a byte by two.
pub fn gmul2(x: u8) -> (r: u64)
    ensures
        r == doubled(x),
{
    let hi: u8 = x >> 7;
    assert(x >> 7u8 == if x < 128 {
        0u8
    } else {
        1u8
    }) by (bit_vector);
    assert((x << 1u8) ^ 0 == x << 1u8) by (bit_vector);
    ((x << 1) ^ (hi * 0x1b)) as u64
}

/// Multiplies a byte by three.
pub fn gmul3(x: u8) -> (r: u64)
    ensures
        r == doubled(x) ^ x,
{
    gmul2(x) ^ (x as u64)
}

/// The substitution of the four bytes of a word.
pub open spec fn sub_word(w: Seq<u8>) -> Seq<u8> {
    Seq::new(4, |i: int| SBOX@[w[i] as int])
}

/// What word `i` of the key schedule takes over from the word before it.
pub open spec fn schedule_core(before: Seq<u8>, i: int) -> Seq<u8> {
    if i % 8 == 0 {
        let w = sub_word(seq![before[1], before[2], before[3], before[0]]);
        w.update(0, w[0] ^ RCON@[i / 8 - 1])
    } else if i % 8 == 4 {
        sub_word(before)
    } else {
        before
    }
}

/// Word `i` of the key schedule.
pub open spec fn key_word(key: Seq<u8>, i: nat) -> Seq<u8>
    decreases i,
{
    if i < 8 {
        key.subrange(4 * (i as int), 4 * (i as int) + 4)
    } else {
        let before = schedule_core(key_word(key, (i - 1) as nat), i as int);
        let eighth = key_word(key, (i - 8) as nat);
        Seq::new(4, |k: int| eighth[k] ^ before[k])
    }
}

/// The key schedule of a key.
pub open spec fn schedule_of(key: Seq<u8>) -> Seq<u8> {
    Seq::new(240, |b: int| key_word(key, (b / 4) as nat)[b % 4])
}

/// The round keys, one after the other.
pub struct KeySchedule {
    pub round_keys: [u8; 240],
}

/// The round key of a round.
pub open spec fn round_key_of(round_keys: Seq<u8>, r: int) -> Seq<u8> {
    round_keys.subrange(16 * r, 16 * r + 16)
}

/// The state with a round key added.
pub open spec fn key_added(state: Seq<u8>, round_key: Seq<u8>) -> Seq<u8> {
    Seq::new(16, |i: int| state[i] ^ round_key[i])
}

/// The state with all bytes substituted.
pub open spec fn substituted(state: Seq<u8>) -> Seq<u8> {
    Seq::new(16, |i: int| SBOX@[state[i] as int])
}

/// The state with row `i % 4` rotated left by as many columns.
pub open spec fn rows_shifted(state: Seq<u8>) -> Seq<u8> {
    Seq::new(16, |i: int| state[(i + 4 * (i % 4)) % 16])
}

/// A byte of a mixed column, from the bytes of the column from its row on.
pub open spec fn mixed(a: u8, b: u8, c: u8, d: u8) -> u8 {
    doubled(a) ^ (doubled(b) ^ b) ^ c ^ d
}

/// The state with all columns mixed.
pub open spec fn columns_mixed(state: Seq<u8>) -> Seq<u8> {
    Seq::new(
        16,
        |i: int|
            {
                let base = i - i % 4;
                mixed(
                    state[i],
                    state[base + (i + 1) % 4],
                    state[base + (i + 2) % 4],
                    state[base + (i + 3) % 4],
                )
            },
    )
}

/// The state after the first `n` rounds with mixed columns.
pub open spec fn rounds_done(block: Seq<u8>, round_keys: Seq<u8>, n: nat) -> Seq<u8>
    decreases n,
{
    if n == 0 {
        key_added(block, round_key_of(round_keys, 0))
    } else {
        key_added(
            columns_mixed(
                rows_shifted(substituted(rounds_done(block, round_keys, (n - 1) as nat))),
            ),
            round_key_of(round_keys, n as int),
        )
    }
}

/// The encryption of a block.
pub open spec fn encrypted(block: Seq<u8>, round_keys: Seq<u8>) -> Seq<u8> {
    key_added(
        rows_shifted(substituted(rounds_done(block, round_keys, 13))),
        round_key_of(round_keys, 14),
    )
}

impl KeySchedule {
    /// Expands a key.
    pub fn new(key: &[u8; 32]) -> (r: Self)
        ensures
            r.round_keys@ == schedule_of(key@),
    {
        let mut rk: [u8; 240] = [0;240];
        let mut b: usize = 0;
        while b < 32
            invariant
                b <= 32,
                forall|k: int| 0 <= k < b ==> rk@[k] == key@[k],
            decreases 32 - b,
        {
            rk[b] = key[b];
            b = b + 1;
        }
        proof {
            assert forall|k: int| 0 <= k < 32 implies rk@[k] == #[trigger] schedule_of(key@)[k] by {
                assert(k == 4 * (k / 4) + k % 4);
            }
        }
        let mut i: usize = 8;
        while i < 60
            invariant
                8 <= i <= 60,
                forall|k: int| 0 <= k < 4 * i ==> rk@[k] == #[trigger] schedule_of(key@)[k],
            decreases 60 - i,
        {
            let p: usize = 4 * (i - 1);
            let before: [u8; 4] = [rk[p], rk[p + 1], rk[p + 2], rk[p + 3]];
            proof {
                let s = schedule_of(key@);
                assert(s[p as int] == key_word(key@, (i - 1) as nat)[0]);
                assert(s[p + 1] == key_word(key@, (i - 1) as nat)[1]);
                assert(s[p + 2] == key_word(key@, (i - 1) as nat)[2]);
                assert(s[p + 3] == key_word(key@, (i - 1) as nat)[3]);
                lemma_key_word_len(key@, (i - 1) as nat);
                assert(before@ =~= key_word(key@, (i - 1) as nat));
            }
            let mut temp: [u8; 4] = before;
            if i % 8 == 0 {
                temp = sub_word_bytes(&[before[1], before[2], before[3], before[0]]);
                assert(seq![before@[1], before@[2], before@[3], before@[0]] =~= [
                    before[1],
                    before[2],
                    before[3],
                    before[0],
                ]@);
                temp[0] = temp[0] ^ RCON[i / 8 - 1];
            } else if i % 8 == 4 {
                temp = sub_word_bytes(&before);
            }
            assert(temp@ =~= schedule_core(key_word(key@, (i - 1) as nat), i as int));
            let base: usize = 4 * i;
            let old_base: usize = 4 * (i - 8);
            let ghost earlier = rk@;
            rk[base] = rk[old_base] ^ temp[0];
            rk[base + 1] = rk[old_base + 1] ^ temp[1];
            rk[base + 2] = rk[old_base + 2] ^ temp[2];
            rk[base + 3] = rk[old_base + 3] ^ temp[3];
            proof {
                let s = schedule_of(key@);
                assert(s[old_base as int] == key_word(key@, (i - 8) as nat)[0]);
                assert(s[old_base + 1] == key_word(key@, (i - 8) as nat)[1]);
                assert(s[old_base + 2] == key_word(key@, (i - 8) as nat)[2]);
                assert(s[old_base + 3] == key_word(key@, (i - 8) as nat)[3]);
                assert forall|k: int| 0 <= k < 4 * (i + 1) implies rk@[k] == #[trigger] s[k] by {
                    if k < 4 * i {
                        assert(rk@[k] == earlier[k]);
                    } else {
                        assert(k / 4 == i);
                        assert(k == base + k % 4);
                    }
                }
            }
            i = i + 1;
        }
        assert(rk@ =~= schedule_of(key@));
        KeySchedule { round_keys: rk }
    }

    /// The round key of a round.
    pub fn round_key(&self, r: usize) -> (k: [u8; 16])
        requires
            r < AES256_ROUND_KEYS,
        ensures
            k@ == round_key_of(self.round_keys@, r as int),
    {
        let mut k: [u8; 16] = [0;16];
        let mut i: usize = 0;
        while i < 16
            invariant
                i <= 16,
                r < 15,
                forall|j: int| 0 <= j < i ==> k@[j] == self.round_keys@[16 * r + j],
            decreases 16 - i,
        {
            k[i] = self.round_keys[16 * r + i];
            i = i + 1;
        }
        assert(k@ =~= round_key_of(self.round_keys@, r as int));
        k
    }
}

proof fn lemma_key_word_len(key: Seq<u8>, i: nat)
    requires
        key.len() == 32,
    ensures
        key_word(key, i).len() == 4,
{
}

/// Substitutes the four bytes of a word.
fn sub_word_bytes(w: &[u8; 4]) -> (r: [u8; 4])
    ensures
        r@ == sub_word(w@),
{
    let r: [u8; 4] = [
        SBOX[w[0] as usize],
        SBOX[w[1] as usize],
        SBOX[w[2] as usize],
        SBOX[w[3] as usize],
    ];
    assert(r@ =~= sub_word(w@));
    r
}

/// Encrypts a block in place.
pub fn aes256_encrypt_block(block: &mut [u8; 16], schedule: &KeySchedule)
    ensures
        final(block)@ == encrypted(old(block)@, schedule.round_keys@),
{
    let ghost start = block@;
    add_round_key(block, &schedule.round_key(0));
    let mut r: usize = 1;
    while r < AES256_ROUNDS
        invariant
            1 <= r <= 14,
            block@ == rounds_done(start, schedule.round_keys@, (r - 1) as nat),
        decreases 14 - r,
    {
        sub_bytes(block);
        shift_rows(block);
        mix_columns(block);
        add_round_key(block, &schedule.round_key(r));
        r = r + 1;
    }
    sub_bytes(block);
    shift_rows(block);
    add_round_key(block, &schedule.round_key(AES256_ROUNDS));
}

/// Substitutes all bytes.
fn sub_bytes(state: &mut [u8; 16])
    ensures
        final(state)@ == substituted(old(state)@),
{
    let mut i: usize = 0;
    while i < 16
        invariant
            i <= 16,
            forall|k: int| 0 <= k < i ==> state@[k] == SBOX@[old(state)@[k] as int],
            forall|k: int| i <= k < 16 ==> state@[k] == old(state)@[k],
        decreases 16 - i,
    {
        state[i] = SBOX[state[i] as usize];
        i = i + 1;
    }
    assert(state@ =~= substituted(old(state)@));
}

/// Rotates the rows.
#[verifier::spinoff_prover]
fn shift_rows(state: &mut [u8; 16])
    ensures
        final(state)@ == rows_shifted(old(state)@),
{
    let first: u8 = state[1];
    state[1] = state[5];
    state[5] = state[9];
    state[9] = state[13];
    state[13] = first;
    let second: u8 = state[2];
    state[2] = state[10];
    state[10] = second;
    let third: u8 = state[6];
    state[6] = state[14];
    state[14] = third;
    let fourth: u8 = state[15];
    state[15] = state[11];
    state[11] = state[7];
    state[7] = state[3];
    state[3] = fourth;
    proof {
        let s = old(state)@;
        let t = rows_shifted(s);
        assert(t[0] == s[0] && t[1] == s[5] && t[2] == s[10] && t[3] == s[15]);
        assert(t[4] == s[4] && t[5] == s[9] && t[6] == s[14] && t[7] == s[3]);
        assert(t[8] == s[8] && t[9] == s[13] && t[10] == s[2] && t[11] == s[7]);
        assert(t[12] == s[12] && t[13] == s[1] && t[14] == s[6] && t[15] == s[11]);
        assert(state@ =~= t);
    }
}

/// Computes a byte of a mixed column.
fn mix(a: u8, b: u8, c: u8, d: u8) -> (r: u8)
    ensures
        r == mixed(a, b, c, d),
{
    (gmul2(a) ^ gmul3(b) ^ c as u64 ^ d as u64) as u8
}

/// Mixes the columns.
fn mix_columns(state: &mut [u8; 16])
    ensures
        final(state)@ == columns_mixed(old(state)@),
{
    let mut col: usize = 0;
    while col < 4
        invariant
            col <= 4,
            forall|k: int| 0 <= k < 4 * col ==> state@[k] == columns_mixed(old(state)@)[k],
            forall|k: int| 4 * col <= k < 16 ==> state@[k] == old(state)@[k],
        decreases 4 - col,
    {
        let base: usize = 4 * col;
        let s0: u8 = state[base];
        let s1: u8 = state[base + 1];
        let s2: u8 = state[base + 2];
        let s3: u8 = state[base + 3];
        state[base] = mix(s0, s1, s2, s3);
        state[base + 1] = mix(s1, s2, s3, s0);
        state[base + 2] = mix(s2, s3, s0, s1);
        state[base + 3] = mix(s3, s0, s1, s2);
        col = col + 1;
    }
    assert(state@ =~= columns_mixed(old(state)@));
}

/// Adds a round key.
fn add_round_key(state: &mut [u8; 16], round_key: &[u8; 16])
    ensures
        final(state)@ == key_added(old(state)@, round_key@),
{
    let mut i: usize = 0;
    while i < 16
        invariant
            i <= 16,
            forall|k: int| 0 <= k < i ==> state@[k] == old(state)@[k] ^ round_key@[k],
            forall|k: int| i <= k < 16 ==> state@[k] == old(state)@[k],
        decreases 16 - i,
    {
        state[i] = state[i] ^ round_key[i];
        i = i + 1;
    }
    assert(state@ =~= key_added(old(state)@, round_key@));
}

} // verus!
