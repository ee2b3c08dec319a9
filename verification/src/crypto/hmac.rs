//! HMAC with SHA-256, as in RFC 2104.

use vstd::prelude::*;

use super::hash::sha256::{sha256, sha256_digest};
use crate::bytes::append;

verus! {

/// The length of a block of the hash.
pub const BLOCK_LEN: usize = 64;

/// The key, hashed if it is longer than a block, and filled up with zeros to a
/// block.
pub open spec fn block_key(key: Seq<u8>) -> Seq<u8> {
    let k = if key.len() > BLOCK_LEN {
        sha256_digest(key)
    } else {
        key
    };
    Seq::new(
        BLOCK_LEN as nat,
        |i: int|
            if i < k.len() {
                k[i]
            } else {
                0
            },
    )
}

/// The key with every byte combined with a constant.
pub open spec fn pad_key(key: Seq<u8>, pad: u8) -> Seq<u8> {
    Seq::new(BLOCK_LEN as nat, |i: int| block_key(key)[i] ^ pad)
}

/// The authentication tag of a message.
pub open spec fn hmac_tag(key: Seq<u8>, message: Seq<u8>) -> Seq<u8> {
    sha256_digest(pad_key(key, 0x5C) + sha256_digest(pad_key(key, 0x36) + message))
}

/// [`core::hint::black_box`] gives back what it is given. Beyond that it asks the
/// compiler to take the value for one that is used, which no contract can say.
pub assume_specification<T>[ core::hint::black_box::<T> ](dummy: T) -> (r: T)
    ensures
        r == dummy,
;

/// Overwrites a block with zeros, and has the compiler take the zeros for
/// read.
fn wipe(block: &mut [u8; 64])
    ensures
        final(block)@ == Seq::new(64, |i: int| 0u8),
{
    let mut i: usize = 0;
    while i < 64
        invariant
            i <= 64,
            forall|j: int| 0 <= j < i ==> block@[j] == 0,
        decreases 64 - i,
    {
        block[i] = 0;
        i = i + 1;
    }
    assert(block@ =~= Seq::new(64, |i: int| 0u8));
    let _ = core::hint::black_box(&*block);
}

/// Computes the authentication tag of a message. The blocks that hold the key
/// are overwritten before it returns.
pub fn hmac_sha256(key: &[u8], message: &[u8]) -> (r: [u8; 32])
    ensures
        r@ == hmac_tag(key@, message@),
{
    let mut k_prime: [u8; 64] = [0;64];
    if key.len() > BLOCK_LEN {
        let hashed = sha256(key);
        let mut i: usize = 0;
        while i < 32
            invariant
                i <= 32,
                hashed@ == sha256_digest(key@),
                hashed@.len() == 32,
                forall|j: int| 0 <= j < i ==> k_prime@[j] == hashed@[j],
                forall|j: int| i <= j < 64 ==> k_prime@[j] == 0,
            decreases 32 - i,
        {
            k_prime[i] = hashed[i];
            i = i + 1;
        }
    } else {
        let mut i: usize = 0;
        while i < key.len()
            invariant
                i <= key@.len() <= 64,
                forall|j: int| 0 <= j < i ==> k_prime@[j] == key@[j],
                forall|j: int| i <= j < 64 ==> k_prime@[j] == 0,
            decreases key@.len() - i,
        {
            k_prime[i] = key[i];
            i = i + 1;
        }
    }
    assert(k_prime@ =~= block_key(key@));
    let mut k_ipad: [u8; 64] = [0;64];
    let mut k_opad: [u8; 64] = [0;64];
    let mut i: usize = 0;
    while i < BLOCK_LEN
        invariant
            i <= 64,
            k_prime@ == block_key(key@),
            forall|j: int| 0 <= j < i ==> k_ipad@[j] == pad_key(key@, 0x36)[j],
            forall|j: int| 0 <= j < i ==> k_opad@[j] == pad_key(key@, 0x5C)[j],
        decreases 64 - i,
    {
        k_ipad[i] = k_prime[i] ^ 0x36;
        k_opad[i] = k_prime[i] ^ 0x5C;
        i = i + 1;
    }
    assert(k_ipad@ =~= pad_key(key@, 0x36));
    assert(k_opad@ =~= pad_key(key@, 0x5C));
    let mut inner_input: Vec<u8> = Vec::new();
    append(&mut inner_input, &k_ipad);
    append(&mut inner_input, message);
    assert(inner_input@ =~= pad_key(key@, 0x36) + message@);
    let inner_hash = sha256(inner_input.as_slice());
    let mut outer_input: Vec<u8> = Vec::new();
    append(&mut outer_input, &k_opad);
    append(&mut outer_input, &inner_hash);
    assert(outer_input@ =~= pad_key(key@, 0x5C) + inner_hash@);
    let tag = sha256(outer_input.as_slice());
    wipe(&mut k_prime);
    wipe(&mut k_ipad);
    wipe(&mut k_opad);
    tag
}

/// A key that fits in a block gives the same tags as the key with zeros
/// appended, up to a block; a longer key gives those of its hash.
pub proof fn keys_with_the_same_block_agree(key: Seq<u8>, other: Seq<u8>, message: Seq<u8>)
    requires
        block_key(key) == block_key(other),
    ensures
        hmac_tag(key, message) == hmac_tag(other, message),
{
    assert(pad_key(key, 0x36) =~= pad_key(other, 0x36));
    assert(pad_key(key, 0x5C) =~= pad_key(other, 0x5C));
}

/// A key that fits in a block gives the tags of the key with zeros appended, and
/// a longer key, whatever its length, those of its digest.
pub proof fn keys_are_brought_to_a_block(key: Seq<u8>, message: Seq<u8>, n: nat)
    requires
        n <= 64,
    ensures
        key.len() <= n ==> hmac_tag(key, message) == hmac_tag(
            key + Seq::new((n - key.len()) as nat, |i: int| 0u8),
            message,
        ),
        key.len() > 64 ==> hmac_tag(key, message) == hmac_tag(sha256_digest(key), message),
{
    if key.len() <= n {
        let longer = key + Seq::new((n - key.len()) as nat, |i: int| 0u8);
        assert(block_key(longer) =~= block_key(key));
        keys_with_the_same_block_agree(key, longer, message);
    }
    if key.len() > 64 {
        let short = sha256_digest(key);
        assert(short.len() == 32);
        assert(block_key(short) =~= block_key(key));
        keys_with_the_same_block_agree(key, short, message);
    }
}

/// With a key of a whole block, a tag is the digest of the key, combined with
/// one constant, and of the digest of the key, combined with another, and the
/// message.
pub proof fn tag_is_a_nested_digest(key: Seq<u8>, message: Seq<u8>, inner: Seq<u8>, outer: Seq<u8>)
    requires
        key.len() == 64,
        inner.len() == 64,
        outer.len() == 64,
        forall|i: int| 0 <= i < 64 ==> #[trigger] inner[i] == key[i] ^ 0x36,
        forall|i: int| 0 <= i < 64 ==> #[trigger] outer[i] == key[i] ^ 0x5C,
    ensures
        hmac_tag(key, message) == sha256_digest(outer + sha256_digest(inner + message)),
{
    assert(block_key(key) =~= key);
    assert(pad_key(key, 0x36) =~= inner);
    assert(pad_key(key, 0x5C) =~= outer);
}

} // verus!
