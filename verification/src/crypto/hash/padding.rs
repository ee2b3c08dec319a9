//! What the hashes over 64-byte blocks share: rotation and padding.

use vstd::prelude::*;

use crate::bytes::{append, be64, bytes_are_digits_64, u64_to_be};

verus! {

/// `x` rotated left by `n` bits.
pub open spec fn rotl32(x: u32, n: u32) -> u32 {
    x << n | x >> (32 - n) as u32
}

/// Rotates left.
pub fn rotate_left_32(x: u32, n: u32) -> (r: u32)
    requires
        0 < n < 32,
    ensures
        r == rotl32(x, n),
{
    x << n | x >> (32 - n)
}

/// `x` rotated left by `n` bits.
pub open spec fn rotl64(x: u64, n: u32) -> u64 {
    if n == 0 {
        x
    } else {
        x << n | x >> (64 - n) as u32
    }
}

/// Rotates left.
pub fn rotate_left_64(x: u64, n: u32) -> (r: u64)
    requires
        n < 64,
    ensures
        r == rotl64(x, n),
{
    if n == 0 {
        x
    } else {
        x << n | x >> (64 - n)
    }
}

/// How many zero bytes follow the mark, so that the length ends a block.
pub open spec fn zero_count(len: nat) -> nat {
    ((119 - len % 64) % 64) as nat
}

/// A message with the mark, the zeros and its length in bits.
pub open spec fn padded(message: Seq<u8>) -> Seq<u8> {
    message + seq![0x80u8] + Seq::new(zero_count(message.len()), |i: int| 0u8) + be64(
        (message.len() as u64).wrapping_mul(8),
    )
}

/// A padded message is made of whole blocks.
pub proof fn lemma_padded_len(message: Seq<u8>)
    ensures
        padded(message).len() % 64 == 0,
        padded(message).len() == message.len() + 9 + zero_count(message.len()),
{
}

/// Pads a message.
pub fn pad(input: &[u8]) -> (r: Vec<u8>)
    ensures
        r@ == padded(input@),
{
    let bit_len: u64 = (input.len() as u64).wrapping_mul(8);
    let mut msg: Vec<u8> = Vec::new();
    append(&mut msg, input);
    assert(msg@ =~= input@);
    msg.push(0x80);
    let ghost head = msg@;
    let ghost mut zeros: nat = 0;
    assert(msg@ =~= head + Seq::new(zeros, |i: int| 0u8));
    while msg.len() % 64 != 56
        invariant
            head.len() == input@.len() + 1,
            msg@ == head + Seq::new(zeros, |i: int| 0u8),
            zeros <= zero_count(input@.len()),
        decreases zero_count(input@.len()) - zeros,
    {
        let ghost before = msg@;
        msg.push(0x00);
        proof {
            zeros = zeros + 1;
            assert(msg@ =~= head + Seq::new(zeros, |i: int| 0u8));
        }
    }
    assert(zeros == zero_count(input@.len()));
    append(&mut msg, &u64_to_be(bit_len));
    assert(msg@ =~= padded(input@));
    msg
}

/// A padded message begins with the message and the mark; it ends with the
/// length in bits, most significant byte first; between them there are zeros, no
/// more of them than fill up a block.
pub proof fn padding_parts(message: Seq<u8>)
    requires
        8 * message.len() <= u64::MAX,
    ensures
        ({
            let p = padded(message);
            let n = message.len() as int;
            let end = p.len() as int;
            &&& end % 64 == 0
            &&& n + 9 <= end < n + 73
            &&& p.take(n) == message
            &&& p[n] == 0x80
            &&& forall|i: int| n < i < end - 8 ==> #[trigger] p[i] == 0
            &&& 8 * n == 0x100000000000000 * p[end - 8] + 0x1000000000000 * p[end - 7]
                + 0x10000000000 * p[end - 6] + 0x100000000 * p[end - 5] + 0x1000000 * p[end - 4]
                + 0x10000 * p[end - 3] + 0x100 * p[end - 2] + p[end - 1]
        }),
{
    let p = padded(message);
    let n = message.len() as int;
    let end = p.len() as int;
    let bits = (8 * n) as u64;
    lemma_padded_len(message);
    bytes_are_digits_64(bits);
    assert((message.len() as u64).wrapping_mul(8) == bits);
    assert(p.take(n) =~= message);
    assert forall|i: int| end - 8 <= i < end implies #[trigger] p[i] == be64(bits)[i - end + 8] by {}
}

} // verus!
