//! The table of blocks: how it begins, how it is filled, and the digest that
//! comes out of it.

use vstd::prelude::*;

use super::super::blake2b::{blake2b_512, blake2b_digest, h_prime, h_prime_digest};
use super::block::{
    block_of, block_to_bytes, bytes_to_block, compress, compressed, xor_block, xored,
};
use super::{ARGON2_TYPE_ID, ARGON2_VERSION, BLOCK_SIZE, HASH_LEN};
use crate::bytes::{append, le32, le64_words, u32_to_le};

verus! {

/// What the first digest is computed from.
pub open spec fn h0_input(
    password: Seq<u8>,
    salt: Seq<u8>,
    m_cost: u32,
    t_cost: u32,
    p_cost: u32,
) -> Seq<u8> {
    le32(p_cost) + le32(HASH_LEN as u32) + le32(m_cost) + le32(t_cost) + le32(ARGON2_VERSION) + le32(
        ARGON2_TYPE_ID,
    ) + le32(password.len() as u32) + password + le32(salt.len() as u32) + salt + le32(0) + le32(0)
}

/// The digest that everything is derived from.
pub open spec fn h0_digest(
    password: Seq<u8>,
    salt: Seq<u8>,
    m_cost: u32,
    t_cost: u32,
    p_cost: u32,
) -> Seq<u8> {
    blake2b_digest(h0_input(password, salt, m_cost, t_cost, p_cost), 64, None)
}

/// Computes the digest that everything is derived from.
pub fn compute_h0(password: &[u8], salt: &[u8], m_cost: u32, t_cost: u32, p_cost: u32) -> (r: [u8;
    64])
    ensures
        r@ == h0_digest(password@, salt@, m_cost, t_cost, p_cost),
{
    let mut input: Vec<u8> = Vec::new();
    append(&mut input, &u32_to_le(p_cost));
    append(&mut input, &u32_to_le(HASH_LEN as u32));
    append(&mut input, &u32_to_le(m_cost));
    append(&mut input, &u32_to_le(t_cost));
    append(&mut input, &u32_to_le(ARGON2_VERSION));
    append(&mut input, &u32_to_le(ARGON2_TYPE_ID));
    append(&mut input, &u32_to_le(password.len() as u32));
    append(&mut input, password);
    append(&mut input, &u32_to_le(salt.len() as u32));
    append(&mut input, salt);
    append(&mut input, &u32_to_le(0));
    append(&mut input, &u32_to_le(0));
    assert(input@ =~= h0_input(password@, salt@, m_cost, t_cost, p_cost));
    blake2b_512(input.as_slice())
}

/// One of the two blocks that a lane begins with.
pub open spec fn first_block(h0: Seq<u8>, block_idx: u32, lane: u32) -> Seq<u64> {
    block_of(h_prime_digest(h0 + le32(block_idx) + le32(lane), BLOCK_SIZE as nat))
}

/// Computes one of the two blocks that a lane begins with.
pub fn h_prime_1024(h0: &[u8; 64], block_idx: u32, lane: u32) -> (r: [u64; 128])
    ensures
        r@ == first_block(h0@, block_idx, lane),
{
    let mut input: Vec<u8> = Vec::new();
    append(&mut input, h0);
    append(&mut input, &u32_to_le(block_idx));
    append(&mut input, &u32_to_le(lane));
    assert(input@ =~= h0@ + le32(block_idx) + le32(lane));
    let bytes = h_prime(input.as_slice(), BLOCK_SIZE);
    bytes_to_block(bytes.as_slice())
}

/// How the table is laid out: `lanes` lanes of four segments each.
#[derive(Clone, Copy)]
pub struct Layout {
    pub lanes: usize,
    pub lane_len: usize,
    pub segment_len: usize,
}

/// A place in the table, and when it is filled.
pub ghost struct Place {
    pub pass: int,
    pub lane: int,
    pub slice: int,
    pub s: int,
}

impl Layout {
    /// The number of blocks.
    pub open spec fn total(&self) -> int {
        self.lanes * self.lane_len
    }

    pub open spec fn wf(&self) -> bool {
        &&& self.lanes >= 1
        &&& self.segment_len >= 1
        &&& self.lane_len == 4 * self.segment_len
        &&& self.total() <= u32::MAX
    }

    /// The block at which a lane begins.
    pub open spec fn lane_start(&self, lane: int) -> int {
        lane * self.lane_len
    }

    /// A place is in the table.
    pub open spec fn holds(&self, at: Place) -> bool {
        &&& 0 <= at.pass
        &&& 0 <= at.lane < self.lanes
        &&& 0 <= at.slice < 4
        &&& 0 <= at.s < self.segment_len
    }

    /// How far into its lane a place is.
    pub open spec fn offset(&self, at: Place) -> int {
        at.slice * self.segment_len + at.s
    }

    /// The block of a place.
    pub open spec fn index(&self, at: Place) -> int {
        self.lane_start(at.lane) + self.offset(at)
    }

    /// The block before, which for the first block of a lane is its last.
    pub open spec fn previous(&self, at: Place) -> int {
        if self.offset(at) == 0 {
            self.lane_start(at.lane) + self.lane_len - 1
        } else {
            self.index(at) - 1
        }
    }

    /// How many blocks a place can refer to: in the first pass those of its
    /// lane before the previous one, later all others but what is left of its
    /// own segment and the previous one.
    pub open spec fn reference_area(&self, at: Place) -> int {
        if at.pass == 0 {
            self.offset(at) - 1
        } else {
            self.total() - self.segment_len + at.s - 1
        }
    }

    /// The block that the reference area begins at.
    pub open spec fn reference_start(&self, at: Place) -> int {
        if at.pass == 0 {
            self.lane_start(at.lane)
        } else {
            self.lane_start(at.lane) + (at.slice + 1) * self.segment_len
        }
    }

    /// The block that a place refers to for a random word. Of the words' low
    /// halves the small ones lead to the end of the reference area.
    pub open spec fn reference(&self, word: u64, at: Place) -> int {
        let area = self.reference_area(at);
        if area == 0 {
            self.lane_start(at.lane)
        } else {
            let x = word as int % 0x1_0000_0000;
            let z = (x + x * x / 0x1_0000_0000) / 2;
            (self.reference_start(at) + (area - 1 - z % area)) % self.total()
        }
    }

    /// Whether the reference block is chosen by the position alone.
    pub open spec fn data_independent(&self, at: Place) -> bool {
        at.pass == 0 && at.slice < 2
    }
}

/// What the random word of a position is computed from.
pub open spec fn position_block(at: Place, passes: int, lanes: int) -> Seq<u64> {
    Seq::new(
        128,
        |i: int|
            if i == 0 {
                at.pass as u64
            } else if i == 1 {
                at.lane as u64
            } else if i == 2 {
                at.slice as u64
            } else if i == 3 {
                (at.s + 1) as u64
            } else if i == 4 {
                passes as u64
            } else if i == 5 {
                lanes as u64
            } else if i == 6 {
                ARGON2_TYPE_ID as u64
            } else {
                0
            },
    )
}

/// A block of zeros.
pub open spec fn zero_block() -> Seq<u64> {
    Seq::new(128, |i: int| 0u64)
}

/// The random word of a position.
pub open spec fn position_word(at: Place, passes: int, lanes: int) -> u64 {
    compressed(zero_block(), position_block(at, passes, lanes))[0]
}

/// The table once the block at a place is filled. The two blocks that a lane
/// begins with are not filled in the first pass.
pub open spec fn block_filled(table: Seq<Seq<u64>>, l: Layout, passes: int, at: Place) -> Seq<
    Seq<u64>,
> {
    if at.pass == 0 && l.offset(at) < 2 {
        table
    } else {
        let previous = table[l.previous(at)];
        let word = if l.data_independent(at) {
            position_word(at, passes, l.lanes as int)
        } else {
            previous[0]
        };
        table.update(l.index(at), compressed(previous, table[l.reference(word, at)]))
    }
}

/// The table once the first `n` blocks of a segment are filled.
pub open spec fn segment_filled(
    table: Seq<Seq<u64>>,
    l: Layout,
    passes: int,
    pass: int,
    lane: int,
    slice: int,
    n: nat,
) -> Seq<Seq<u64>>
    decreases n,
{
    if n == 0 {
        table
    } else {
        block_filled(
            segment_filled(table, l, passes, pass, lane, slice, (n - 1) as nat),
            l,
            passes,
            Place { pass, lane, slice, s: n - 1 },
        )
    }
}

/// The table once a segment of each of the first `n` lanes is filled.
pub open spec fn slice_filled(
    table: Seq<Seq<u64>>,
    l: Layout,
    passes: int,
    pass: int,
    slice: int,
    n: nat,
) -> Seq<Seq<u64>>
    decreases n,
{
    if n == 0 {
        table
    } else {
        segment_filled(
            slice_filled(table, l, passes, pass, slice, (n - 1) as nat),
            l,
            passes,
            pass,
            n - 1,
            slice,
            l.segment_len as nat,
        )
    }
}

/// The table once the first `n` slices are filled.
pub open spec fn slices_filled(
    table: Seq<Seq<u64>>,
    l: Layout,
    passes: int,
    pass: int,
    n: nat,
) -> Seq<Seq<u64>>
    decreases n,
{
    if n == 0 {
        table
    } else {
        slice_filled(
            slices_filled(table, l, passes, pass, (n - 1) as nat),
            l,
            passes,
            pass,
            n - 1,
            l.lanes as nat,
        )
    }
}

/// The table after the first `n` passes.
pub open spec fn passes_done(table: Seq<Seq<u64>>, l: Layout, passes: int, n: nat) -> Seq<Seq<u64>>
    decreases n,
{
    if n == 0 {
        table
    } else {
        slices_filled(passes_done(table, l, passes, (n - 1) as nat), l, passes, n - 1, 4)
    }
}

/// The table to begin with: two blocks of each lane, and zeros.
pub open spec fn first_table(h0: Seq<u8>, l: Layout) -> Seq<Seq<u64>> {
    Seq::new(
        l.total() as nat,
        |i: int|
            if i % l.lane_len as int <= 1 {
                first_block(h0, (i % l.lane_len as int) as u32, (i / l.lane_len as int) as u32)
            } else {
                zero_block()
            },
    )
}

/// The last blocks of the first `n` lanes, combined.
pub open spec fn last_blocks(table: Seq<Seq<u64>>, l: Layout, n: nat) -> Seq<u64>
    decreases n,
{
    if n == 0 {
        zero_block()
    } else {
        xored(
            last_blocks(table, l, (n - 1) as nat),
            table[l.lane_start(n - 1) + l.lane_len - 1],
        )
    }
}

/// The layout for the costs: as many whole segments as there is memory for.
pub open spec fn layout_for(m_cost: u32, p_cost: u32) -> Layout {
    let segment_len = m_cost as int / (4 * p_cost);
    Layout {
        lanes: p_cost as usize,
        lane_len: (4 * segment_len) as usize,
        segment_len: segment_len as usize,
    }
}

/// Whether the memory suffices for a block in each segment.
pub open spec fn has_layout(m_cost: u32, p_cost: u32) -> bool {
    p_cost >= 1 && m_cost >= 4 * p_cost
}

/// The Argon2id digest of a password.
pub open spec fn argon2id_digest(
    password: Seq<u8>,
    salt: Seq<u8>,
    m_cost: u32,
    t_cost: u32,
    p_cost: u32,
) -> Seq<u8> {
    let l = layout_for(m_cost, p_cost);
    let h0 = h0_digest(password, salt, m_cost, t_cost, p_cost);
    let table = passes_done(first_table(h0, l), l, t_cost as int, t_cost as nat);
    h_prime_digest(le64_words(last_blocks(table, l, l.lanes as nat)), HASH_LEN as nat)
}

/// A sum that is wrapped once at most.
pub proof fn lemma_wrapped(x: int, total: int)
    requires
        0 <= x < 2 * total,
    ensures
        x % total == if x < total {
            x
        } else {
            x - total
        },
{
    if x < total {
        vstd::arithmetic::div_mod::lemma_fundamental_div_mod_converse(x, total, 0, x);
    } else {
        vstd::arithmetic::div_mod::lemma_fundamental_div_mod_converse(x, total, 1, x - total);
    }
}

/// Multiples of a segment.
pub proof fn lemma_quarters(k: int, seg: int)
    requires
        0 <= k <= 4,
    ensures
        k * seg == if k == 0 {
            0
        } else if k == 1 {
            seg
        } else if k == 2 {
            2 * seg
        } else if k == 3 {
            3 * seg
        } else {
            4 * seg
        },
{
    assert(k == 4 ==> k * seg == 4 * seg) by (nonlinear_arith);
    assert(k == 0 ==> k * seg == 0) by (nonlinear_arith);
    assert(k == 1 ==> k * seg == seg) by (nonlinear_arith);
    assert(k == 2 ==> k * seg == 2 * seg) by (nonlinear_arith);
    assert(k == 3 ==> k * seg == 3 * seg) by (nonlinear_arith);
}

/// Where a place is.
pub proof fn lemma_place(l: Layout, at: Place)
    requires
        l.wf(),
        l.holds(at),
    ensures
        0 <= l.offset(at) < l.lane_len,
        at.slice * l.segment_len <= 3 * l.segment_len,
        0 <= l.lane_start(at.lane),
        l.lane_start(at.lane) + l.lane_len <= l.total(),
        0 <= l.index(at) < l.total(),
        0 <= l.previous(at) < l.total(),
        l.previous(at) != l.index(at),
{
    lemma_quarters(at.slice, l.segment_len as int);
    let len = l.lane_len as int;
    assert(0 <= at.lane * len && at.lane * len + len <= l.lanes * len) by (nonlinear_arith)
        requires
            0 <= at.lane < l.lanes,
            len >= 0,
    ;
}

/// A block is compressed from two others: it never refers to itself, nor is it
/// the one before. In the first pass it refers to a block of its lane that is
/// before it, and so is filled; later all blocks are.
pub proof fn reference_is_another_block(l: Layout, at: Place, word: u64)
    requires
        l.wf(),
        l.holds(at),
        at.pass == 0 ==> l.offset(at) >= 1,
    ensures
        l.previous(at) != l.index(at),
        l.reference(word, at) != l.index(at),
        0 <= l.reference(word, at) < l.total(),
        at.pass == 0 ==> l.lane_start(at.lane) <= l.reference(word, at) < l.index(at),
{
    lemma_place(l, at);
    lemma_reference(l, at, word);
    let seg = l.segment_len as int;
    lemma_quarters(at.slice, seg);
    lemma_quarters(at.slice + 1, seg);
    let start = l.reference_start(at);
    let area = l.reference_area(at);
    if area != 0 {
        let x = word as int % 0x1_0000_0000;
        let z = (x + x * x / 0x1_0000_0000) / 2;
        let phi = area - 1 - z % area;
        vstd::arithmetic::div_mod::lemma_mod_bound(z, area);
        assert(0 <= phi < area);
        if at.pass > 0 {
            assert(at.slice == 0 || at.slice == 1 || at.slice == 2 || at.slice == 3);
            assert(start == l.index(at) - at.s + seg);
        }
        lemma_wrapped(start + phi, l.total());
    }
}

/// The reference area is not negative, and leads to a block.
pub proof fn lemma_reference(l: Layout, at: Place, word: u64)
    requires
        l.wf(),
        l.holds(at),
        at.pass == 0 ==> l.offset(at) >= 1,
    ensures
        0 <= l.reference_area(at) < l.total(),
        at.pass > 0 ==> l.reference_area(at) > 0,
        0 <= l.reference_start(at) <= l.total(),
        0 <= l.reference(word, at) < l.total(),
{
    lemma_place(l, at);
    lemma_quarters(at.slice, l.segment_len as int);
    lemma_quarters(at.slice + 1, l.segment_len as int);
    assert(at.slice == 0 || at.slice == 1 || at.slice == 2 || at.slice == 3);
    let area = l.reference_area(at);
    if area != 0 {
        let x = word as int % 0x1_0000_0000;
        let z = (x + x * x / 0x1_0000_0000) / 2;
        vstd::arithmetic::div_mod::lemma_mod_bound(
            l.reference_start(at) + (area - 1 - z % area),
            l.total(),
        );
    }
}

/// Chooses the block that a place refers to.
pub fn index_alpha(
    pseudo_rand: u64,
    l: &Layout,
    pass: usize,
    lane: usize,
    slice: usize,
    s: usize,
) -> (r: usize)
    requires
        l.wf(),
        lane < l.lanes,
        slice < 4,
        s < l.segment_len,
        pass == 0 ==> slice * l.segment_len + s >= 1,
    ensures
        r == l.reference(
            pseudo_rand,
            (Place { pass: pass as int, lane: lane as int, slice: slice as int, s: s as int }),
        ),
        r < l.total(),
        r != l.index(
            Place { pass: pass as int, lane: lane as int, slice: slice as int, s: s as int },
        ),
{
    let ghost at = Place {
        pass: pass as int,
        lane: lane as int,
        slice: slice as int,
        s: s as int,
    };
    proof {
        lemma_place(*l, at);
        lemma_reference(*l, at, pseudo_rand);
        reference_is_another_block(*l, at, pseudo_rand);
        lemma_quarters(at.slice, l.segment_len as int);
        lemma_quarters(at.slice + 1, l.segment_len as int);
        assert(at.slice == 0 || at.slice == 1 || at.slice == 2 || at.slice == 3);
    }
    let total: usize = l.lanes * l.lane_len;
    let lane_start: usize = lane * l.lane_len;
    let area: usize = if pass == 0 {
        slice * l.segment_len + s - 1
    } else {
        total - l.segment_len + s - 1
    };
    if area == 0 {
        return lane_start;
    }
    let x: u64 = pseudo_rand % 0x1_0000_0000;
    assert(x * x <= 0xFFFF_FFFF * 0xFFFF_FFFF) by (nonlinear_arith)
        requires
            x <= 0xFFFF_FFFF,
    ;
    let y: u64 = (x * x) / 0x1_0000_0000;
    let z: u64 = (x + y) / 2;
    let phi: usize = area - 1 - (z as usize % area);
    let start: usize = if pass == 0 {
        lane_start
    } else {
        lane_start + (slice + 1) * l.segment_len
    };
    if total - start > phi {
        proof {
            lemma_wrapped(start + phi, total as int);
        }
        start + phi
    } else {
        proof {
            lemma_wrapped(start + phi, total as int);
        }
        phi - (total - start)
    }
}

/// The table as sequences of words.
pub open spec fn words_of(memory: Seq<[u64; 128]>) -> Seq<Seq<u64>> {
    Seq::new(memory.len(), |i: int| memory[i]@)
}

/// Computes the random words of a segment whose reference blocks are chosen by
/// position.
pub fn compute_pseudo_rands(
    l: &Layout,
    pass: usize,
    lane: usize,
    slice: usize,
    t_cost: usize,
) -> (r: Vec<u64>)
    ensures
        r@ == Seq::new(
            l.segment_len as nat,
            |s: int|
                position_word(
                    Place { pass: pass as int, lane: lane as int, slice: slice as int, s },
                    t_cost as int,
                    l.lanes as int,
                ),
        ),
{
    let mut result: Vec<u64> = Vec::new();
    let mut s: usize = 0;
    while s < l.segment_len
        invariant
            s <= l.segment_len,
            result@.len() == s,
            forall|k: int|
                0 <= k < s ==> #[trigger] result@[k] == position_word(
                    Place { pass: pass as int, lane: lane as int, slice: slice as int, s: k },
                    t_cost as int,
                    l.lanes as int,
                ),
        decreases l.segment_len - s,
    {
        let mut input_block: [u64; 128] = [0;128];
        input_block[0] = pass as u64;
        input_block[1] = lane as u64;
        input_block[2] = slice as u64;
        input_block[3] = s as u64 + 1;
        input_block[4] = t_cost as u64;
        input_block[5] = l.lanes as u64;
        input_block[6] = ARGON2_TYPE_ID as u64;
        let zeros: [u64; 128] = [0;128];
        assert(zeros@ =~= zero_block());
        assert(input_block@ =~= position_block(
            Place { pass: pass as int, lane: lane as int, slice: slice as int, s: s as int },
            t_cost as int,
            l.lanes as int,
        ));
        let pr_block = compress(&zeros, &input_block);
        result.push(pr_block[0]);
        s = s + 1;
    }
    assert(result@ =~= Seq::new(
        l.segment_len as nat,
        |s: int|
            position_word(
                Place { pass: pass as int, lane: lane as int, slice: slice as int, s },
                t_cost as int,
                l.lanes as int,
            ),
    ));
    result
}

/// Fills a segment.
pub fn fill_segment(
    memory: &mut Vec<[u64; 128]>,
    l: &Layout,
    pass: usize,
    lane: usize,
    slice: usize,
    t_cost: usize,
)
    requires
        l.wf(),
        old(memory)@.len() == l.total(),
        lane < l.lanes,
        slice < 4,
    ensures
        final(memory)@.len() == l.total(),
        words_of(final(memory)@) == segment_filled(
            words_of(old(memory)@),
            *l,
            t_cost as int,
            pass as int,
            lane as int,
            slice as int,
            l.segment_len as nat,
        ),
{
    let data_independent: bool = pass == 0 && slice < 2;
    let pseudo_rands: Vec<u64> = if data_independent {
        compute_pseudo_rands(l, pass, lane, slice, t_cost)
    } else {
        Vec::new()
    };
    let mut s: usize = 0;
    while s < l.segment_len
        invariant
            l.wf(),
            s <= l.segment_len,
            memory@.len() == l.total(),
            lane < l.lanes,
            slice < 4,
            data_independent == (pass == 0 && slice < 2),
            data_independent ==> pseudo_rands@ == Seq::new(
                l.segment_len as nat,
                |s: int|
                    position_word(
                        Place { pass: pass as int, lane: lane as int, slice: slice as int, s },
                        t_cost as int,
                        l.lanes as int,
                    ),
            ),
            words_of(memory@) == segment_filled(
                words_of(old(memory)@),
                *l,
                t_cost as int,
                pass as int,
                lane as int,
                slice as int,
                s as nat,
            ),
        decreases l.segment_len - s,
    {
        let ghost at = Place {
            pass: pass as int,
            lane: lane as int,
            slice: slice as int,
            s: s as int,
        };
        let ghost before = words_of(memory@);
        proof {
            lemma_place(*l, at);
        }
        let lane_start: usize = lane * l.lane_len;
        let offset: usize = slice * l.segment_len + s;
        let abs_idx: usize = lane_start + offset;
        if !(pass == 0 && offset < 2) {
            let prev_idx: usize = if offset == 0 {
                lane_start + l.lane_len - 1
            } else {
                abs_idx - 1
            };
            let prev: [u64; 128] = memory[prev_idx];
            let pseudo_rand: u64 = if data_independent {
                pseudo_rands[s]
            } else {
                prev[0]
            };
            let ref_idx: usize = index_alpha(pseudo_rand, l, pass, lane, slice, s);
            let refb: [u64; 128] = memory[ref_idx];
            let new_block = compress(&prev, &refb);
            memory[abs_idx] = new_block;
            assert(words_of(memory@) =~= before.update(abs_idx as int, new_block@));
        }
        assert(words_of(memory@) == block_filled(before, *l, t_cost as int, at));
        s = s + 1;
    }
}

/// The layout is sound, and within the memory.
pub proof fn layout_fits(m_cost: u32, p_cost: u32)
    requires
        has_layout(m_cost, p_cost),
    ensures
        layout_for(m_cost, p_cost).wf(),
        layout_for(m_cost, p_cost).segment_len == m_cost as int / (4 * p_cost),
        layout_for(m_cost, p_cost).total() <= m_cost,
        m_cost - layout_for(m_cost, p_cost).total() < 4 * p_cost,
{
    let m = m_cost as int;
    let p = p_cost as int;
    let seg = m / (4 * p);
    vstd::arithmetic::div_mod::lemma_fundamental_div_mod(m, 4 * p);
    vstd::arithmetic::div_mod::lemma_mod_bound(m, 4 * p);
    assert(1 <= seg <= m && 4 * seg <= m && p * (4 * seg) == (4 * p) * seg) by (nonlinear_arith)
        requires
            m == (4 * p) * seg + m % (4 * p),
            0 <= m % (4 * p) < 4 * p,
            1 <= p,
            4 * p <= m,
    ;
}

/// Lays the table out, with the two blocks that each lane begins with.
fn begin_table(h0: &[u8; 64], l: &Layout) -> (memory: Vec<[u64; 128]>)
    requires
        l.wf(),
    ensures
        memory@.len() == l.total(),
        words_of(memory@) == first_table(h0@, *l),
{
    let total: usize = l.lanes * l.lane_len;
    let zeros: [u64; 128] = [0;128];
    assert(zeros@ =~= zero_block());
    let mut memory: Vec<[u64; 128]> = Vec::new();
    let mut n: usize = 0;
    while n < total
        invariant
            n <= total,
            memory@.len() == n,
            zeros@ == zero_block(),
            forall|i: int| 0 <= i < n ==> (#[trigger] memory@[i])@ == zero_block(),
        decreases total - n,
    {
        memory.push(zeros);
        n = n + 1;
    }
    let ghost len = l.lane_len as int;
    let mut lane: usize = 0;
    proof {
        assert forall|i: int| 0 <= i < total implies #[trigger] (i / len) >= 0 by {
            vstd::arithmetic::div_mod::lemma_div_pos_is_pos(i, len);
        }
    }
    while lane < l.lanes
        invariant
            l.wf(),
            lane <= l.lanes,
            len == l.lane_len,
            memory@.len() == l.total() == total,
            forall|i: int|
                0 <= i < total ==> (#[trigger] memory@[i])@ == if i / len < lane {
                    first_table(h0@, *l)[i]
                } else {
                    zero_block()
                },
        decreases l.lanes - lane,
    {
        let ghost before = memory@;
        proof {
            lemma_place(*l, Place { pass: 0, lane: lane as int, slice: 0, s: 0 });
        }
        let start: usize = lane * l.lane_len;
        let block0 = h_prime_1024(h0, 0, lane as u32);
        let block1 = h_prime_1024(h0, 1, lane as u32);
        memory[start] = block0;
        memory[start + 1] = block1;
        proof {
            vstd::arithmetic::div_mod::lemma_fundamental_div_mod_converse(
                start as int,
                len,
                lane as int,
                0,
            );
            vstd::arithmetic::div_mod::lemma_fundamental_div_mod_converse(
                start + 1,
                len,
                lane as int,
                1,
            );
            assert forall|i: int| 0 <= i < total implies (#[trigger] memory@[i])@ == if i / len < lane
                + 1 {
                first_table(h0@, *l)[i]
            } else {
                zero_block()
            } by {
                assert(before[i]@ == if i / len < lane {
                    first_table(h0@, *l)[i]
                } else {
                    zero_block()
                });
                vstd::arithmetic::div_mod::lemma_fundamental_div_mod(i, len);
                vstd::arithmetic::div_mod::lemma_mod_bound(i, len);
                if i / len == lane {
                    assert(len * (i / len) == start) by (nonlinear_arith)
                        requires
                            i / len == lane,
                            start == lane * len,
                    ;
                    assert(i == start + i % len);
                }
            }
        }
        lane = lane + 1;
    }
    proof {
        assert forall|i: int| 0 <= i < total implies words_of(memory@)[i] == first_table(h0@, *l)[i] by {
            assert(memory@[i]@ == words_of(memory@)[i]);
            assert(i / len < l.lanes) by (nonlinear_arith)
                requires
                    0 <= i < l.lanes * len,
                    len > 0,
            ;
        }
        assert(words_of(memory@) =~= first_table(h0@, *l));
    }
    memory
}

/// Combines the last blocks of all lanes.
fn combine_last_blocks(memory: &Vec<[u64; 128]>, l: &Layout) -> (r: [u64; 128])
    requires
        l.wf(),
        memory@.len() == l.total(),
    ensures
        r@ == last_blocks(words_of(memory@), *l, l.lanes as nat),
{
    let mut final_block: [u64; 128] = [0;128];
    assert(final_block@ =~= zero_block());
    let mut lane: usize = 0;
    while lane < l.lanes
        invariant
            l.wf(),
            lane <= l.lanes,
            memory@.len() == l.total(),
            final_block@ == last_blocks(words_of(memory@), *l, lane as nat),
        decreases l.lanes - lane,
    {
        proof {
            lemma_place(*l, Place { pass: 0, lane: lane as int, slice: 0, s: 0 });
        }
        let last: usize = lane * l.lane_len + (l.lane_len - 1);
        final_block = xor_block(&final_block, &memory[last]);
        lane = lane + 1;
    }
    final_block
}

/// Computes the Argon2id digest of a password.
pub fn argon2id_raw(password: &[u8], salt: &[u8], m_cost: u32, t_cost: u32, p_cost: u32) -> (r: [u8;
    32])
    requires
        has_layout(m_cost, p_cost),
    ensures
        r@ == argon2id_digest(password@, salt@, m_cost, t_cost, p_cost),
{
    let h0 = compute_h0(password, salt, m_cost, t_cost, p_cost);
    proof {
        layout_fits(m_cost, p_cost);
    }
    let p: usize = p_cost as usize;
    let segment_len: usize = m_cost as usize / (4 * p);
    let l = Layout { lanes: p, lane_len: 4 * segment_len, segment_len };
    assert(l == layout_for(m_cost, p_cost));
    let passes: usize = t_cost as usize;
    let mut memory = begin_table(&h0, &l);
    let ghost first = words_of(memory@);
    let mut pass: usize = 0;
    while pass < passes
        invariant
            l.wf(),
            l.lanes == p,
            pass <= passes,
            memory@.len() == l.total(),
            words_of(memory@) == passes_done(first, l, passes as int, pass as nat),
        decreases passes - pass,
    {
        let ghost at_pass = words_of(memory@);
        let mut slice: usize = 0;
        while slice < 4
            invariant
                l.wf(),
                l.lanes == p,
                slice <= 4,
                memory@.len() == l.total(),
                words_of(memory@) == slices_filled(
                    at_pass,
                    l,
                    passes as int,
                    pass as int,
                    slice as nat,
                ),
            decreases 4 - slice,
        {
            let ghost at_slice = words_of(memory@);
            let mut lane: usize = 0;
            while lane < p
                invariant
                    l.wf(),
                    l.lanes == p,
                    slice < 4,
                    lane <= p,
                    memory@.len() == l.total(),
                    words_of(memory@) == slice_filled(
                        at_slice,
                        l,
                        passes as int,
                        pass as int,
                        slice as int,
                        lane as nat,
                    ),
                decreases p - lane,
            {
                fill_segment(&mut memory, &l, pass, lane, slice, passes);
                lane = lane + 1;
            }
            slice = slice + 1;
        }
        pass = pass + 1;
    }
    let final_block = combine_last_blocks(&memory, &l);
    let final_bytes = block_to_bytes(&final_block);
    let digest = h_prime(final_bytes.as_slice(), HASH_LEN);
    let mut out: [u8; 32] = [0;32];
    let mut i: usize = 0;
    while i < 32
        invariant
            i <= 32,
            digest@.len() == 32,
            forall|k: int| 0 <= k < i ==> out@[k] == digest@[k],
        decreases 32 - i,
    {
        out[i] = digest[i];
        i = i + 1;
    }
    assert(out@ =~= digest@);
    out
}

} // verus!
