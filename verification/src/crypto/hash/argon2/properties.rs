//! What holds of the table: what its beginning is made of, how its blocks are
//! addressed, and which of them refer to which.

use vstd::arithmetic::div_mod::{
    lemma_fundamental_div_mod, lemma_fundamental_div_mod_converse, lemma_mod_bound,
};
use vstd::prelude::*;

use super::super::blake2b::{blake2b_digest, h_prime_digest};
use super::block::compressed;
use super::memory::{
    argon2id_digest, argon2id_raw, block_filled, compute_pseudo_rands, first_block, first_table, h0_input,
    index_alpha, last_blocks, layout_fits,
    layout_for, lemma_place, lemma_quarters, lemma_reference, lemma_wrapped, passes_done,
    position_block, position_word, segment_filled, slice_filled, slices_filled, zero_block, Layout,
    Place,
};
use crate::bytes::{bytes_are_digits_32, from_le64, le32, le64_words};

verus! {

/// The words of the block that a position's random word is compressed from: the
/// pass, the lane, the slice, the position in the segment counted from one, the
/// number of passes, the number of lanes, the number of the variant, and zeros.
pub proof fn position_block_words(at: Place, passes: int, lanes: int)
    requires
        0 <= at.pass <= u32::MAX,
        0 <= at.lane <= u32::MAX,
        0 <= at.slice <= u32::MAX,
        0 <= at.s <= u32::MAX,
        0 <= passes <= u32::MAX,
        0 <= lanes <= u32::MAX,
    ensures
        ({
            let b = position_block(at, passes, lanes);
            &&& b.len() == 128
            &&& b[0] == at.pass
            &&& b[1] == at.lane
            &&& b[2] == at.slice
            &&& b[3] == at.s + 1
            &&& b[4] == passes
            &&& b[5] == lanes
            &&& b[6] == 2
            &&& forall|i: int| 7 <= i < 128 ==> #[trigger] b[i] == 0
        }),
{
}

/// No two positions share the block that their random word is compressed from.
pub proof fn positions_have_blocks_of_their_own(at: Place, other: Place, passes: int, lanes: int)
    requires
        0 <= at.pass <= u32::MAX,
        0 <= at.lane <= u32::MAX,
        0 <= at.slice <= u32::MAX,
        0 <= at.s <= u32::MAX,
        0 <= other.pass <= u32::MAX,
        0 <= other.lane <= u32::MAX,
        0 <= other.slice <= u32::MAX,
        0 <= other.s <= u32::MAX,
        0 <= passes <= u32::MAX,
        0 <= lanes <= u32::MAX,
        at != other,
    ensures
        position_block(at, passes, lanes) != position_block(other, passes, lanes),
{
    position_block_words(at, passes, lanes);
    position_block_words(other, passes, lanes);
}

/// Blocks of zeros are made of 128 words.
pub proof fn zero_block_is_zero(i: int)
    requires
        0 <= i < 128,
    ensures
        zero_block().len() == 128,
        zero_block()[i] == 0,
{
}

/// Every block has a place of its own: lanes follow one another, in each of them
/// four segments, and in those their blocks.
pub proof fn places_are_numbered(l: Layout, at: Place)
    requires
        l.wf(),
        l.holds(at),
    ensures
        0 <= l.index(at) < l.total(),
        l.total() == l.lanes * (4 * l.segment_len),
        l.index(at) / (4 * l.segment_len as int) == at.lane,
        l.index(at) % (4 * l.segment_len as int) / l.segment_len as int == at.slice,
        l.index(at) % (4 * l.segment_len as int) % l.segment_len as int == at.s,
{
    lemma_place(l, at);
    let seg = l.segment_len as int;
    let off = at.slice * seg + at.s;
    lemma_fundamental_div_mod_converse(l.index(at), 4 * seg, at.lane, off);
    lemma_fundamental_div_mod_converse(off, seg, at.slice, at.s);
}

/// The block before is in the same lane. Before the first of a lane is the last
/// one.
pub proof fn previous_is_in_the_lane(l: Layout, at: Place)
    requires
        l.wf(),
        l.holds(at),
    ensures
        l.previous(at) / (l.lane_len as int) == at.lane,
        (l.previous(at) + 1) % l.lane_len as int == l.index(at) % l.lane_len as int,
{
    lemma_place(l, at);
    let len = l.lane_len as int;
    let off = l.offset(at);
    lemma_fundamental_div_mod_converse(l.index(at), len, at.lane, off);
    if off == 0 {
        lemma_fundamental_div_mod_converse(l.previous(at), len, at.lane, len - 1);
        assert((at.lane + 1) * len == at.lane * len + len) by (nonlinear_arith);
        lemma_fundamental_div_mod_converse(l.previous(at) + 1, len, at.lane + 1, 0);
    } else {
        lemma_fundamental_div_mod_converse(l.previous(at), len, at.lane, off - 1);
    }
}

/// How far back the low half of a random word leads: small words lead a little
/// back, and large ones far, in the mean of a linear and a quadratic measure.
pub open spec fn reach(word: u64) -> int {
    let x = word as int % 0x1_0000_0000;
    (x + x * x / 0x1_0000_0000) / 2
}

/// A place refers to a block that lies as far behind the one two before it as
/// its random word reaches. In the first pass only the blocks of its lane before
/// the previous one are there, and to the second the first; later it reaches round the whole table, up to the
/// end of its own segment.
pub proof fn reference_lies_behind(l: Layout, at: Place, word: u64)
    requires
        l.wf(),
        l.holds(at),
        at.pass == 0 ==> l.offset(at) >= 1,
    ensures
        at.pass == 0 && l.offset(at) == 1 ==> l.reference(word, at) == l.index(at) - 1,
        at.pass == 0 && l.offset(at) >= 2 ==> l.reference(word, at) == l.index(at) - 2 - reach(
            word,
        ) % (l.offset(at) - 1),
        at.pass > 0 ==> l.reference(word, at) == (l.index(at) - 2 - reach(word) % (l.total()
            - l.segment_len + at.s - 1)) % l.total(),
{
    lemma_place(l, at);
    lemma_reference(l, at, word);
    let seg = l.segment_len as int;
    let total = l.total();
    lemma_quarters(at.slice, seg);
    lemma_quarters(at.slice + 1, seg);
    assert(at.slice == 0 || at.slice == 1 || at.slice == 2 || at.slice == 3);
    let area = l.reference_area(at);
    let z = reach(word);
    if area > 0 {
        lemma_mod_bound(z, area);
    }
    let start = l.reference_start(at);
    let phi = area - 1 - z % area;
    if at.pass == 0 {
        if area > 0 {
            lemma_wrapped(start + phi, total);
        }
    } else {
        let back = l.index(at) - 2 - z % area;
        assert(start + phi == back + total);
        lemma_fundamental_div_mod(back, total);
        lemma_mod_bound(back, total);
        let q = back / total;
        assert((q + 1) * total == q * total + total) by (nonlinear_arith);
        assert(total * q == q * total) by (nonlinear_arith);
        lemma_fundamental_div_mod_converse(start + phi, total, q + 1, back % total);
    }
}

/// Filling the block at a place changes no other block. The new one is
/// compressed from the block before and the one that the place refers to; the
/// random word is the position's in the first half of the first pass, and else
/// the first word of the block before.
pub proof fn filling_changes_one_block(table: Seq<Seq<u64>>, l: Layout, passes: int, at: Place)
    requires
        l.wf(),
        l.holds(at),
        table.len() == l.total(),
    ensures
        ({
            let t = block_filled(table, l, passes, at);
            let word = if at.pass == 0 && (at.slice == 0 || at.slice == 1) {
                position_word(at, passes, l.lanes as int)
            } else {
                table[l.previous(at)][0]
            };
            &&& t.len() == table.len()
            &&& forall|i: int|
                0 <= i < table.len() && i != l.index(at) ==> #[trigger] t[i] == table[i]
            &&& t[l.index(at)] == if at.pass == 0 && at.slice * l.segment_len + at.s < 2 {
                table[l.index(at)]
            } else {
                compressed(table[l.previous(at)], table[l.reference(word, at)])
            }
        }),
{
    lemma_place(l, at);
}

/// A segment is filled block by block, from its first on, and none of the blocks
/// of other segments changes.
pub proof fn segments_are_filled_in_order(
    table: Seq<Seq<u64>>,
    l: Layout,
    passes: int,
    pass: int,
    lane: int,
    slice: int,
    n: nat,
    other: Place,
)
    requires
        l.wf(),
        table.len() == l.total(),
        0 <= pass,
        0 <= lane < l.lanes,
        0 <= slice < 4,
        n <= l.segment_len,
        l.holds(other),
        other.lane != lane || other.slice != slice || other.s >= n,
    ensures
        segment_filled(table, l, passes, pass, lane, slice, n).len() == table.len(),
        segment_filled(table, l, passes, pass, lane, slice, n)[l.index(other)]
            == table[l.index(other)],
    decreases n,
{
    places_are_numbered(l, other);
    if n > 0 {
        segments_are_filled_in_order(
            table,
            l,
            passes,
            pass,
            lane,
            slice,
            (n - 1) as nat,
            other,
        );
        let at = Place { pass, lane, slice, s: n - 1 };
        places_are_numbered(l, at);
        let before = segment_filled(table, l, passes, pass, lane, slice, (n - 1) as nat);
        filling_changes_one_block(before, l, passes, at);
    }
}

/// The table begins with two blocks in each lane, which come from the digest,
/// the number of the block and the number of the lane, and else with zeros.
pub proof fn lanes_begin_with_two_blocks(h0: Seq<u8>, l: Layout, lane: int, i: int)
    requires
        l.wf(),
        0 <= lane < l.lanes,
        0 <= i < l.lane_len,
    ensures
        first_table(h0, l).len() == l.total(),
        first_table(h0, l)[lane * l.lane_len + i] == if i == 0 {
            first_block(h0, 0, lane as u32)
        } else if i == 1 {
            first_block(h0, 1, lane as u32)
        } else {
            zero_block()
        },
{
    let len = l.lane_len as int;
    lemma_fundamental_div_mod_converse(lane * len + i, len, lane, i);
    assert(0 <= lane * len && lane * len + len <= l.lanes * len) by (nonlinear_arith)
        requires
            0 <= lane < l.lanes,
            len >= 0,
    ;
}

/// The last block of each lane is combined into the result, word by word.
pub proof fn every_lane_counts(table: Seq<Seq<u64>>, l: Layout, n: nat, i: int)
    requires
        0 <= i < 128,
    ensures
        last_blocks(table, l, 0)[i] == 0,
        last_blocks(table, l, n).len() == 128,
        last_blocks(table, l, n + 1)[i] == last_blocks(table, l, n)[i] ^ table[(n + 1) * l.lane_len
            - 1][i],
    decreases n,
{
    let len = l.lane_len as int;
    assert(n * len + len - 1 == (n + 1) * len - 1) by (nonlinear_arith);
    if n > 0 {
        every_lane_counts(table, l, (n - 1) as nat, i);
    }
}

/// The costs give the layout: a lane for each of `p_cost`, of four segments, as
/// long as the memory allows.
pub proof fn costs_give_the_layout(m_cost: u32, p_cost: u32)
    requires
        p_cost >= 1,
        m_cost >= 4 * p_cost,
    ensures
        layout_for(m_cost, p_cost).lanes == p_cost,
        layout_for(m_cost, p_cost).lane_len == 4 * layout_for(m_cost, p_cost).segment_len,
        p_cost * layout_for(m_cost, p_cost).lane_len <= m_cost,
        m_cost < p_cost * layout_for(m_cost, p_cost).lane_len + 4 * p_cost,
{
    layout_fits(m_cost, p_cost);
}

/// Where the parts of the input of the first digest stand: the costs and
/// constants, the password behind its length, the salt behind its length, and
/// two lengths of zero.
pub proof fn first_input_parts(
    password: Seq<u8>,
    salt: Seq<u8>,
    m_cost: u32,
    t_cost: u32,
    p_cost: u32,
)
    requires
        password.len() <= u32::MAX,
        salt.len() <= u32::MAX,
    ensures
        ({
            let input = h0_input(password, salt, m_cost, t_cost, p_cost);
            let n = password.len() as int;
            let k = salt.len() as int;
            &&& input.len() == 40 + n + k
            &&& input.subrange(0, 4) == le32(p_cost)
            &&& input.subrange(4, 8) == le32(32)
            &&& input.subrange(8, 12) == le32(m_cost)
            &&& input.subrange(12, 16) == le32(t_cost)
            &&& input.subrange(16, 20) == le32(19)
            &&& input.subrange(20, 24) == le32(2)
            &&& input.subrange(24, 28) == le32(n as u32)
            &&& input.subrange(28, 28 + n) == password
            &&& input.subrange(28 + n, 32 + n) == le32(k as u32)
            &&& input.subrange(32 + n, 32 + n + k) == salt
            &&& input.subrange(32 + n + k, 36 + n + k) == le32(0)
            &&& input.subrange(36 + n + k, 40 + n + k) == le32(0)
        }),
{
    let input = h0_input(password, salt, m_cost, t_cost, p_cost);
    let n = password.len() as int;
    let k = salt.len() as int;
    assert(input.subrange(0, 4) =~= le32(p_cost));
    assert(input.subrange(4, 8) =~= le32(32));
    assert(input.subrange(8, 12) =~= le32(m_cost));
    assert(input.subrange(12, 16) =~= le32(t_cost));
    assert(input.subrange(16, 20) =~= le32(19));
    assert(input.subrange(20, 24) =~= le32(2));
    assert(input.subrange(24, 28) =~= le32(n as u32));
    assert(input.subrange(28, 28 + n) =~= password);
    assert(input.subrange(28 + n, 32 + n) =~= le32(k as u32));
    assert(input.subrange(32 + n, 32 + n + k) =~= salt);
    assert(input.subrange(32 + n + k, 36 + n + k) =~= le32(0));
    assert(input.subrange(36 + n + k, 40 + n + k) =~= le32(0));
}

/// Different passwords, salts or costs are hashed as different inputs.
pub proof fn first_inputs_differ(
    password: Seq<u8>,
    salt: Seq<u8>,
    m_cost: u32,
    t_cost: u32,
    p_cost: u32,
    password2: Seq<u8>,
    salt2: Seq<u8>,
    m_cost2: u32,
    t_cost2: u32,
    p_cost2: u32,
)
    requires
        password.len() <= u32::MAX,
        salt.len() <= u32::MAX,
        password2.len() <= u32::MAX,
        salt2.len() <= u32::MAX,
        h0_input(password, salt, m_cost, t_cost, p_cost) == h0_input(
            password2,
            salt2,
            m_cost2,
            t_cost2,
            p_cost2,
        ),
    ensures
        password == password2,
        salt == salt2,
        m_cost == m_cost2,
        t_cost == t_cost2,
        p_cost == p_cost2,
{
    first_input_parts(password, salt, m_cost, t_cost, p_cost);
    first_input_parts(password2, salt2, m_cost2, t_cost2, p_cost2);
    bytes_are_digits_32(p_cost);
    bytes_are_digits_32(p_cost2);
    bytes_are_digits_32(m_cost);
    bytes_are_digits_32(m_cost2);
    bytes_are_digits_32(t_cost);
    bytes_are_digits_32(t_cost2);
    bytes_are_digits_32(password.len() as u32);
    bytes_are_digits_32(password2.len() as u32);
}

/// The table is filled pass by pass, each of them slice by slice, and each of
/// the four slices lane by lane, and in a lane block by block.
pub proof fn table_is_filled_in_order(
    table: Seq<Seq<u64>>,
    l: Layout,
    passes: int,
    pass: int,
    lane: int,
    slice: int,
    n: nat,
)
    ensures
        passes_done(table, l, passes, 0) == table,
        passes_done(table, l, passes, n + 1) == slices_filled(
            passes_done(table, l, passes, n),
            l,
            passes,
            n as int,
            4,
        ),
        slices_filled(table, l, passes, pass, 0) == table,
        slices_filled(table, l, passes, pass, n + 1) == slice_filled(
            slices_filled(table, l, passes, pass, n),
            l,
            passes,
            pass,
            n as int,
            l.lanes as nat,
        ),
        slice_filled(table, l, passes, pass, slice, 0) == table,
        slice_filled(table, l, passes, pass, slice, n + 1) == segment_filled(
            slice_filled(table, l, passes, pass, slice, n),
            l,
            passes,
            pass,
            n as int,
            slice,
            l.segment_len as nat,
        ),
        segment_filled(table, l, passes, pass, lane, slice, 0) == table,
        segment_filled(table, l, passes, pass, lane, slice, n + 1) == block_filled(
            segment_filled(table, l, passes, pass, lane, slice, n),
            l,
            passes,
            Place { pass, lane, slice, s: n as int },
        ),
{
}

/// The two blocks that a lane begins with are digests of 1024 bytes, read as
/// words, least significant byte first.
pub proof fn first_blocks_are_long_digests(h0: Seq<u8>, block_idx: u32, lane: u32, i: int)
    requires
        0 <= i < 128,
    ensures
        first_block(h0, block_idx, lane).len() == 128,
        first_block(h0, block_idx, lane)[i] == from_le64(
            h_prime_digest(h0 + le32(block_idx) + le32(lane), 1024),
            8 * i,
        ),
{
}

/// The digest of a password: the first digest gives the first table, which is
/// filled in as many passes as the costs say; the combined last blocks of all
/// lanes give 32 bytes.
pub proof fn digest_of_a_password(
    password: Seq<u8>,
    salt: Seq<u8>,
    m_cost: u32,
    t_cost: u32,
    p_cost: u32,
)
    ensures
        ({
            let l = layout_for(m_cost, p_cost);
            let h0 = blake2b_digest(h0_input(password, salt, m_cost, t_cost, p_cost), 64, None);
            let table = passes_done(first_table(h0, l), l, t_cost as int, t_cost as nat);
            argon2id_digest(password, salt, m_cost, t_cost, p_cost) == h_prime_digest(
                le64_words(last_blocks(table, l, p_cost as nat)),
                32,
            )
        }),
{
}

/// The random words of a segment are computed position by position: each is the
/// first word of a block of zeros compressed with the block that holds the pass,
/// the lane, the slice, the position counted from one, the numbers of passes and
/// lanes and that of the variant.
pub proof fn random_words_of_a_segment(
    l: &Layout,
    pass: usize,
    lane: usize,
    slice: usize,
    t_cost: usize,
    r: Vec<u64>,
    s: int,
    b: Seq<u64>,
)
    requires
        call_ensures(compute_pseudo_rands, (l, pass, lane, slice, t_cost), r),
        0 <= s < l.segment_len,
        l.segment_len <= u32::MAX,
        b.len() == 128,
        b[0] == pass,
        b[1] == lane,
        b[2] == slice,
        b[3] == s + 1,
        b[4] == t_cost,
        b[5] == l.lanes,
        b[6] == 2,
        forall|i: int| 7 <= i < 128 ==> #[trigger] b[i] == 0,
    ensures
        r@.len() == l.segment_len,
        r@[s] == compressed(Seq::new(128, |i: int| 0u64), b)[0],
{
    let at = Place { pass: pass as int, lane: lane as int, slice: slice as int, s };
    assert(position_block(at, t_cost as int, l.lanes as int) =~= b);
    assert(zero_block() =~= Seq::new(128, |i: int| 0u64));
}

/// The block that a place refers to is where the random word leads, and the
/// digest of a password is computed as told.
pub proof fn references_and_digests(
    word: u64,
    l: &Layout,
    pass: usize,
    lane: usize,
    slice: usize,
    s: usize,
    r: usize,
    password: &[u8],
    salt: &[u8],
    m_cost: u32,
    t_cost: u32,
    p_cost: u32,
    digest: [u8; 32],
)
    requires
        call_ensures(index_alpha, (word, l, pass, lane, slice, s), r),
        call_ensures(argon2id_raw, (password, salt, m_cost, t_cost, p_cost), digest),
    ensures
        r == l.reference(
            word,
            (Place { pass: pass as int, lane: lane as int, slice: slice as int, s: s as int }),
        ),
        digest@ == argon2id_digest(password@, salt@, m_cost, t_cost, p_cost),
{
}

} // verus!
