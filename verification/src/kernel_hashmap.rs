//! An open-addressing hash map with linear probing.
//!
//! All entries live in one slot array whose length is zero or a power of two.
//! A removed entry leaves a tombstone, so that the probe chains that run
//! through its slot stay whole. The array doubles when more than seven tenths
//! of its slots hold an entry or a tombstone.

use vstd::arithmetic::power::pow;
use vstd::arithmetic::power2::{is_pow2, pow2};
use vstd::prelude::*;

use crate::bytes::{bytes_eq, le32, le64, u32_to_le, u64_to_le};

verus! {

pub const FNV_OFFSET_BASIS: u64 = 0xcbf29ce484222325;

pub const FNV_PRIME: u64 = 0x00000100000001b3;

/// The state of the hash after one more byte.
pub open spec fn fnv1a_step(hash: u64, byte: u8) -> u64 {
    (hash ^ byte as u64).wrapping_mul(FNV_PRIME)
}

/// The state of the hash, begun at `hash`, after `bytes`.
pub open spec fn fnv1a_from(hash: u64, bytes: Seq<u8>) -> u64
    decreases bytes.len(),
{
    if bytes.len() == 0 {
        hash
    } else {
        fnv1a_step(fnv1a_from(hash, bytes.drop_last()), bytes.last())
    }
}

/// The FNV-1a hash of `bytes`.
pub open spec fn fnv1a(bytes: Seq<u8>) -> u64 {
    fnv1a_from(FNV_OFFSET_BASIS, bytes)
}

/// Hashing two pieces in turn is hashing them joined.
pub proof fn fnv1a_chains(hash: u64, first: Seq<u8>, second: Seq<u8>)
    ensures
        fnv1a_from(fnv1a_from(hash, first), second) == fnv1a_from(hash, first + second),
    decreases second.len(),
{
    if second.len() == 0 {
        assert(first + second =~= first);
    } else {
        fnv1a_chains(hash, first, second.drop_last());
        assert((first + second).drop_last() =~= first + second.drop_last());
        assert((first + second).last() == second.last());
    }
}

/// Feeds `bytes` to a hash that has reached `hash`.
pub fn fnv1a_continue(hash: u64, bytes: &[u8]) -> (r: u64)
    ensures
        r == fnv1a_from(hash, bytes@),
{
    let mut state: u64 = hash;
    let mut i: usize = 0;
    assert(bytes@.take(0) =~= seq![]);
    while i < bytes.len()
        invariant
            i <= bytes@.len(),
            state == fnv1a_from(hash, bytes@.take(i as int)),
        decreases bytes@.len() - i,
    {
        state = (state ^ bytes[i] as u64).wrapping_mul(FNV_PRIME);
        assert(bytes@.take(i + 1).drop_last() =~= bytes@.take(i as int));
        i = i + 1;
    }
    assert(bytes@.take(i as int) =~= bytes@);
    state
}

/// Computes the FNV-1a hash of a byte slice.
pub fn fnv1a_hash_bytes(bytes: &[u8]) -> (r: u64)
    ensures
        r == fnv1a(bytes@),
{
    fnv1a_continue(FNV_OFFSET_BASIS, bytes)
}

/// What a type needs to be a key of a [`KernelHashMap`].
///
/// A key is known by its view: keys with one view are one key, and the hash is
/// a function of the view.
pub trait KernelHash: View + Sized {
    /// The hash of the keys whose view is `key`.
    spec fn hash_of(key: Self::V) -> u64;

    fn kernel_hash(&self) -> (r: u64)
        ensures
            r == Self::hash_of(self@),
    ;

    fn same_key(&self, other: &Self) -> (r: bool)
        ensures
            r == (self@ == other@),
    ;
}

impl KernelHash for u32 {
    open spec fn hash_of(key: u32) -> u64 {
        fnv1a(le32(key))
    }

    fn kernel_hash(&self) -> (r: u64) {
        fnv1a_hash_bytes(&u32_to_le(*self))
    }

    fn same_key(&self, other: &Self) -> (r: bool) {
        *self == *other
    }
}

impl KernelHash for u64 {
    open spec fn hash_of(key: u64) -> u64 {
        fnv1a(le64(key))
    }

    fn kernel_hash(&self) -> (r: u64) {
        fnv1a_hash_bytes(&u64_to_le(*self))
    }

    fn same_key(&self, other: &Self) -> (r: bool) {
        *self == *other
    }
}

impl KernelHash for &'static str {
    open spec fn hash_of(key: Seq<char>) -> u64 {
        fnv1a(vstd::utf8::encode_utf8(key))
    }

    fn kernel_hash(&self) -> (r: u64) {
        fnv1a_hash_bytes(self.as_bytes())
    }

    fn same_key(&self, other: &Self) -> (r: bool) {
        let r = bytes_eq(self.as_bytes(), other.as_bytes());
        proof {
            vstd::utf8::encode_utf8_decode_utf8(self@);
            vstd::utf8::encode_utf8_decode_utf8(other@);
        }
        r
    }
}

/// One slot of the array.
pub enum Slot<K, V> {
    /// Never written: a probe chain ends here.
    Empty,
    /// Held an entry that was removed: probe chains run through it.
    Tombstone,
    Occupied(K, V),
}

impl<K, V> Slot<K, V> {
    /// Checks if this slot is `Empty`.
    pub fn is_empty(&self) -> (r: bool)
        ensures
            r == (*self is Empty),
    {
        matches!(self, Slot::Empty)
    }
}

pub const LOAD_FACTOR_NUM: usize = 7;

pub const LOAD_FACTOR_DEN: usize = 10;

pub const MIN_CAPACITY: usize = 8;

pub struct KernelHashMap<K, V> {
    /// The slot array.
    slots: Vec<Slot<K, V>>,
    /// How many slots are occupied.
    len: usize,
    /// How many slots are occupied or a tombstone.
    used: usize,
}

/// The slot that is `d` places after `home` in a ring of `cap` slots.
spec fn ring(home: int, d: int, cap: int) -> int {
    if home + d < cap {
        home + d
    } else {
        home + d - cap
    }
}

/// How far slot `i` lies after `home` in a ring of `cap` slots.
spec fn ring_distance(home: int, i: int, cap: int) -> int {
    if i >= home {
        i - home
    } else {
        i - home + cap
    }
}

/// Where the search for a key with hash `hash` begins.
spec fn home(hash: u64, cap: int) -> int {
    hash as int % cap
}

spec fn holds<K: KernelHash, V>(slots: Seq<Slot<K, V>>, i: int, key: K::V) -> bool {
    0 <= i < slots.len() && slots[i] is Occupied && slots[i]->Occupied_0@ == key
}

spec fn count_used<K, V>(slots: Seq<Slot<K, V>>) -> nat
    decreases slots.len(),
{
    if slots.len() == 0 {
        0
    } else {
        count_used(slots.drop_last()) + (if slots.last() is Empty {
            0nat
        } else {
            1nat
        })
    }
}

spec fn count_occupied<K, V>(slots: Seq<Slot<K, V>>) -> nat
    decreases slots.len(),
{
    if slots.len() == 0 {
        0
    } else {
        count_occupied(slots.drop_last()) + (if slots.last() is Occupied {
            1nat
        } else {
            0nat
        })
    }
}

/// The capacity that an array of `capacity` slots, `load` of them in use, has
/// once there is room for one more entry.
pub open spec fn grown(capacity: nat, load: nat) -> nat {
    if capacity == 0 {
        MIN_CAPACITY as nat
    } else if load * LOAD_FACTOR_DEN > capacity * LOAD_FACTOR_NUM {
        2 * capacity
    } else {
        capacity
    }
}

/// The load of that array, when it holds `len` entries before the new one: an
/// array that is rebuilt has no tombstones.
pub open spec fn grown_load(capacity: nat, load: nat, len: nat) -> nat {
    if grown(capacity, load) == capacity {
        load
    } else {
        len
    }
}

/// The load after an insertion into an array with the load `load`. A new entry
/// takes a slot that was never written, or that of a tombstone.
pub open spec fn load_after_insert(load: nat, was_there: bool, after: nat) -> bool {
    if was_there {
        after == load
    } else {
        load <= after <= load + 1
    }
}

/// No key stands in two slots.
spec fn keys_distinct<K: KernelHash, V>(slots: Seq<Slot<K, V>>) -> bool {
    forall|i: int, j: int|
        0 <= i < slots.len() && 0 <= j < slots.len() && (#[trigger] slots[i]) is Occupied && (
        #[trigger] slots[j]) is Occupied && slots[i]->Occupied_0@ == slots[j]->Occupied_0@ ==> i
            == j
}

/// Every slot from the key's home up to slot `i` is in use.
spec fn chain_to<K: KernelHash, V>(slots: Seq<Slot<K, V>>, key: K::V, i: int) -> bool {
    let cap = slots.len() as int;
    let h = home(K::hash_of(key), cap);
    forall|d: int|
        0 <= d < ring_distance(h, i, cap) ==> !((#[trigger] slots[ring(h, d, cap)]) is Empty)
}

/// Every key can be reached from its home.
spec fn chains_whole<K: KernelHash, V>(slots: Seq<Slot<K, V>>) -> bool {
    forall|i: int|
        0 <= i < slots.len() && (#[trigger] slots[i]) is Occupied ==> chain_to(
            slots,
            slots[i]->Occupied_0@,
            i,
        )
}

/// The entries of a slot array.
spec fn entries<K: KernelHash, V>(slots: Seq<Slot<K, V>>) -> Map<K::V, V> {
    Map::new(
        |k: K::V| exists|i: int| holds(slots, i, k),
        |k: K::V| slots[choose|i: int| holds(slots, i, k)]->Occupied_1,
    )
}

spec fn slots_wf<K: KernelHash, V>(slots: Seq<Slot<K, V>>) -> bool {
    &&& keys_distinct(slots)
    &&& chains_whole(slots)
    &&& slots.len() == 0 || (is_pow2(slots.len() as int) && slots.len() >= MIN_CAPACITY)
}

proof fn lemma_ring(home: int, i: int, cap: int)
    requires
        0 <= home < cap,
        0 <= i < cap,
    ensures
        0 <= ring_distance(home, i, cap) < cap,
        ring(home, ring_distance(home, i, cap), cap) == i,
{
}

proof fn lemma_home(hash: u64, cap: int)
    requires
        cap > 0,
    ensures
        0 <= home(hash, cap) < cap,
{
    assert(0 <= hash as int % cap < cap) by (nonlinear_arith)
        requires
            cap > 0,
    ;
}

proof fn lemma_entries<K: KernelHash, V>(slots: Seq<Slot<K, V>>)
    requires
        keys_distinct(slots),
    ensures
        forall|k: K::V| #[trigger]
            entries(slots).contains_key(k) <==> exists|i: int| holds(slots, i, k),
        forall|i: int|
            0 <= i < slots.len() && (#[trigger] slots[i]) is Occupied ==> entries(
                slots,
            ).contains_key(slots[i]->Occupied_0@) && entries(slots)[slots[i]->Occupied_0@]
                == slots[i]->Occupied_1,
{
    assert forall|i: int| 0 <= i < slots.len() && (#[trigger] slots[i]) is Occupied implies entries(
        slots,
    ).contains_key(slots[i]->Occupied_0@) && entries(slots)[slots[i]->Occupied_0@]
        == slots[i]->Occupied_1 by {
        let k = slots[i]->Occupied_0@;
        assert(holds(slots, i, k));
        let j = choose|j: int| holds(slots, j, k);
        assert(holds(slots, j, k));
    }
}

proof fn lemma_count_bounds<K, V>(slots: Seq<Slot<K, V>>)
    ensures
        count_occupied(slots) <= count_used(slots) <= slots.len(),
    decreases slots.len(),
{
    if slots.len() > 0 {
        lemma_count_bounds(slots.drop_last());
    }
}

/// If not all slots are in use, one is empty.
proof fn lemma_has_empty<K, V>(slots: Seq<Slot<K, V>>) -> (i: int)
    requires
        count_used(slots) < slots.len(),
    ensures
        0 <= i < slots.len(),
        slots[i] is Empty,
    decreases slots.len(),
{
    if slots.last() is Empty {
        slots.len() - 1
    } else {
        lemma_has_empty(slots.drop_last())
    }
}

proof fn lemma_count_update<K, V>(slots: Seq<Slot<K, V>>, i: int, s: Slot<K, V>)
    requires
        0 <= i < slots.len(),
    ensures
        count_used(slots.update(i, s)) + (if slots[i] is Empty {
            0nat
        } else {
            1nat
        }) == count_used(slots) + (if s is Empty {
            0nat
        } else {
            1nat
        }),
        count_occupied(slots.update(i, s)) + (if slots[i] is Occupied {
            1nat
        } else {
            0nat
        }) == count_occupied(slots) + (if s is Occupied {
            1nat
        } else {
            0nat
        }),
    decreases slots.len(),
{
    if i == slots.len() - 1 {
        assert(slots.update(i, s).drop_last() =~= slots.drop_last());
    } else {
        assert(slots.update(i, s).drop_last() =~= slots.drop_last().update(i, s));
        lemma_count_update(slots.drop_last(), i, s);
    }
}

proof fn lemma_count_empty<K, V>(slots: Seq<Slot<K, V>>)
    requires
        forall|i: int| 0 <= i < slots.len() ==> slots[i] is Empty,
    ensures
        count_used(slots) == 0,
        count_occupied(slots) == 0,
    decreases slots.len(),
{
    if slots.len() > 0 {
        lemma_count_empty(slots.drop_last());
    }
}

/// The entries of the array are those of its front and its last slot.
proof fn lemma_entries_last<K: KernelHash, V>(slots: Seq<Slot<K, V>>)
    requires
        keys_distinct(slots),
        slots.len() > 0,
    ensures
        keys_distinct(slots.drop_last()),
        match slots.last() {
            Slot::Occupied(k, v) => {
                &&& !entries(slots.drop_last()).contains_key(k@)
                &&& entries(slots) == entries(slots.drop_last()).insert(k@, v)
            },
            _ => entries(slots) == entries(slots.drop_last()),
        },
{
    let front = slots.drop_last();
    let n = slots.len() - 1;
    assert forall|i: int, j: int|
        0 <= i < front.len() && 0 <= j < front.len() && (#[trigger] front[i]) is Occupied && (
        #[trigger] front[j]) is Occupied && front[i]->Occupied_0@
            == front[j]->Occupied_0@ implies i == j by {
        assert(front[i] == slots[i] && front[j] == slots[j]);
    }
    lemma_entries(slots);
    lemma_entries(front);
    assert forall|k: K::V| #[trigger] entries(front).contains_key(k) implies entries(
        slots,
    ).contains_key(k) && entries(slots)[k] == entries(front)[k] by {
        let i = choose|i: int| holds(front, i, k);
        assert(holds(slots, i, k));
        assert(front[i] is Occupied && slots[i] is Occupied);
    }
    assert forall|k: K::V| #[trigger]
        entries(slots).contains_key(k) && !holds(slots, n, k) implies entries(front).contains_key(
        k,
    ) by {
        let i = choose|i: int| holds(slots, i, k);
        assert(holds(front, i, k));
    }
    if let Slot::Occupied(key, value) = slots.last() {
        assert(holds(slots, n, key@));
        if entries(front).contains_key(key@) {
            let i = choose|i: int| holds(front, i, key@);
            assert(slots[i] is Occupied && slots[n] is Occupied);
        }
        assert(entries(slots) =~= entries(front).insert(key@, value));
    } else {
        assert(entries(slots) =~= entries(front));
    }
}

/// As many keys as occupied slots.
proof fn lemma_entries_len<K: KernelHash, V>(slots: Seq<Slot<K, V>>)
    requires
        keys_distinct(slots),
    ensures
        entries(slots).dom().finite(),
        entries(slots).dom().len() == count_occupied(slots),
    decreases slots.len(),
{
    if slots.len() == 0 {
        lemma_entries(slots);
        assert(entries(slots).dom() =~= Set::empty());
    } else {
        lemma_entries_last(slots);
        lemma_entries_len(slots.drop_last());
    }
}

/// Writing an entry whose key is nowhere else into a free slot at the end of
/// the key's chain adds that entry.
proof fn lemma_place<K: KernelHash, V>(slots: Seq<Slot<K, V>>, i: int, key: K, value: V)
    requires
        slots_wf(slots),
        0 <= i < slots.len(),
        !(slots[i] is Occupied),
        !entries(slots).contains_key(key@),
        chain_to(slots, key@, i),
    ensures
        slots_wf(slots.update(i, Slot::Occupied(key, value))),
        entries(slots.update(i, Slot::Occupied(key, value))) == entries(slots).insert(key@, value),
{
    let next = slots.update(i, Slot::Occupied(key, value));
    lemma_entries(slots);
    assert forall|a: int, b: int|
        0 <= a < next.len() && 0 <= b < next.len() && (#[trigger] next[a]) is Occupied && (
        #[trigger] next[b]) is Occupied && next[a]->Occupied_0@ == next[b]->Occupied_0@ implies a
        == b by {
        if a != b {
            if a == i {
                assert(holds(slots, b, key@));
            } else if b == i {
                assert(holds(slots, a, key@));
            } else {
                assert(slots[a] is Occupied && slots[b] is Occupied);
            }
        }
    }
    lemma_chains_after_fill(slots, i, Slot::Occupied(key, value));
    lemma_entries(next);
    assert forall|k: K::V| entries(next).contains_key(k) <==> #[trigger] entries(slots).insert(
        key@,
        value,
    ).contains_key(k) by {
        if entries(next).contains_key(k) {
            let j = choose|j: int| holds(next, j, k);
            if j != i {
                assert(holds(slots, j, k));
            }
        }
        if entries(slots).contains_key(k) {
            let j = choose|j: int| holds(slots, j, k);
            assert(holds(next, j, k));
        }
        if k == key@ {
            assert(holds(next, i, k));
        }
    }
    assert forall|k: K::V| #[trigger] entries(next).contains_key(k) implies entries(next)[k]
        == entries(slots).insert(key@, value)[k] by {
        let j = choose|j: int| holds(next, j, k);
        assert(next[j] is Occupied);
        if j != i {
            assert(slots[j] is Occupied);
        }
    }
    assert(entries(next) =~= entries(slots).insert(key@, value));
}

/// Filling slot `i` keeps all chains whole, if the new entry has its own.
proof fn lemma_chains_after_fill<K: KernelHash, V>(
    slots: Seq<Slot<K, V>>,
    i: int,
    s: Slot<K, V>,
)
    requires
        chains_whole(slots),
        0 <= i < slots.len(),
        !(s is Empty),
        s is Occupied ==> chain_to(slots, s->Occupied_0@, i),
    ensures
        chains_whole(slots.update(i, s)),
{
    let next = slots.update(i, s);
    let cap = slots.len() as int;
    assert forall|j: int| 0 <= j < next.len() && (#[trigger] next[j]) is Occupied implies chain_to(
        next,
        next[j]->Occupied_0@,
        j,
    ) by {
        let key = next[j]->Occupied_0@;
        let h = home(K::hash_of(key), cap);
        lemma_home(K::hash_of(key), cap);
        if j != i {
            assert(slots[j] is Occupied);
        }
        assert(chain_to(slots, key, j));
        assert forall|d: int| 0 <= d < ring_distance(h, j, cap) implies !((#[trigger] next[ring(
            h,
            d,
            cap,
        )]) is Empty) by {
            assert(!(slots[ring(h, d, cap)] is Empty));
        }
    }
}

impl<K: KernelHash, V> View for KernelHashMap<K, V> {
    type V = Map<K::V, V>;

    closed spec fn view(&self) -> Map<K::V, V> {
        entries(self.slots@)
    }
}

impl<K: KernelHash, V> KernelHashMap<K, V> {
    /// The invariant of the map.
    pub closed spec fn wf(&self) -> bool {
        &&& slots_wf(self.slots@)
        &&& self.len == count_occupied(self.slots@)
        &&& self.used == count_used(self.slots@)
        &&& self.used * 10 <= self.slots@.len() * 7 + 10
    }

    /// The number of slots.
    pub closed spec fn capacity(&self) -> nat {
        self.slots@.len()
    }

    /// The number of slots that hold an entry or a tombstone.
    pub closed spec fn load(&self) -> nat {
        self.used as nat
    }

    /// The array that an insertion may need is within the limits of the machine.
    pub open spec fn can_grow(&self) -> bool {
        grown(self.capacity(), self.load()) <= usize::MAX
    }

    /// The array `after` is this one after an insertion. It was rebuilt if it
    /// had to grow.
    pub open spec fn made_room(&self, after: &Self, was_there: bool) -> bool {
        &&& after.capacity() == grown(self.capacity(), self.load())
        &&& load_after_insert(
            grown_load(self.capacity(), self.load(), self@.dom().len()),
            was_there,
            after.load(),
        )
        &&& after@.dom().len() <= after.load()
    }

    /// The array `after` has as many slots, and as many in use, as this one.
    pub open spec fn same_room(&self, after: &Self) -> bool {
        after.capacity() == self.capacity() && after.load() == self.load()
    }

    /// The slot where the search for a key with this hash begins.
    fn slot_index(hash: u64, cap: usize) -> (r: usize)
        requires
            is_pow2(cap as int),
        ensures
            r == home(hash, cap as int),
            r < cap,
    {
        proof {
            vstd::arithmetic::power2::is_pow2_equiv(cap as int);
            let k = choose|k: nat| pow(2, k) == cap as int;
            assert(pow2(k) == cap as int);
            vstd::arithmetic::power2::lemma_pow2_pos(k);
            vstd::arithmetic::power2::lemma2_to64_rest();
            if k >= 64 {
                if k > 64 {
                    vstd::arithmetic::power2::lemma_pow2_strictly_increases(64, k);
                }
                assert(false);
            }
            vstd::bits::lemma_u64_low_bits_mask_is_mod(hash, k);
            lemma_home(hash, cap as int);
        }
        (hash & (cap as u64 - 1)) as usize
    }

    /// Searches for `key` along its probe chain. The answer is the slot that
    /// holds it, or else the slot where it should be put.
    fn probe(&self, key: &K) -> (r: (usize, bool))
        requires
            self.wf(),
            self.capacity() > 0,
        ensures
            r.0 < self.slots@.len(),
            r.1 == self@.contains_key(key@),
            r.1 ==> holds(self.slots@, r.0 as int, key@),
            !r.1 ==> !(self.slots@[r.0 as int] is Occupied) && chain_to(
                self.slots@,
                key@,
                r.0 as int,
            ),
    {
        let cap: usize = self.slots.len();
        let hash: u64 = key.kernel_hash();
        let mut index: usize = Self::slot_index(hash, cap);
        let mut first_tombstone: Option<usize> = None;
        let ghost h = index as int;
        let ghost mut d: int = 0;
        let ghost slots = self.slots@;
        proof {
            lemma_entries(slots);
        }
        let ghost e = lemma_has_empty(slots);
        proof {
            lemma_ring(h, e, cap as int);
        }
        loop
            invariant
                self.wf(),
                slots == self.slots@,
                cap == slots.len(),
                0 <= h < cap,
                h == home(K::hash_of(key@), cap as int),
                0 <= d <= ring_distance(h, e, cap as int) < cap,
                0 <= e < cap,
                slots[e] is Empty,
                ring(h, ring_distance(h, e, cap as int), cap as int) == e,
                index == ring(h, d, cap as int),
                index < cap,
                forall|x: int|
                    0 <= x < d ==> !((#[trigger] slots[ring(h, x, cap as int)]) is Empty) && !holds(
                        slots,
                        ring(h, x, cap as int),
                        key@,
                    ),
                first_tombstone matches Some(t) ==> t < cap && slots[t as int] is Tombstone
                    && ring_distance(h, t as int, cap as int) < d,
                forall|k: K::V| #[trigger]
                    self@.contains_key(k) <==> exists|i: int| holds(slots, i, k),
            decreases cap - d,
        {
            match &self.slots[index] {
                Slot::Empty => {
                    let at: usize = match first_tombstone {
                        Some(t) => t,
                        None => index,
                    };
                    proof {
                        if self@.contains_key(key@) {
                            let i = choose|i: int| holds(slots, i, key@);
                            assert(slots[i] is Occupied);
                            assert(chain_to(slots, key@, i));
                            lemma_ring(h, i, cap as int);
                            let di = ring_distance(h, i, cap as int);
                            if di < d {
                                assert(!holds(slots, ring(h, di, cap as int), key@));
                            } else if di > d {
                                assert(!(slots[ring(h, d, cap as int)] is Empty));
                            }
                        }
                        assert forall|x: int|
                            0 <= x < ring_distance(h, at as int, cap as int) implies !((
                        #[trigger] slots[ring(h, x, cap as int)]) is Empty) by {}
                    }
                    return (at, false);
                },
                Slot::Tombstone => {
                    if first_tombstone.is_none() {
                        first_tombstone = Some(index);
                    }
                },
                Slot::Occupied(k, _) => {
                    if k.same_key(key) {
                        assert(holds(slots, index as int, key@));
                        return (index, true);
                    }
                },
            }
            proof {
                assert(d != ring_distance(h, e, cap as int));
                d = d + 1;
            }
            index = if index + 1 == cap {
                0
            } else {
                index + 1
            };
        }
    }

    /// Puts an entry into an array that has no tombstone and does not hold
    /// its key.
    fn place(slots: &mut Vec<Slot<K, V>>, key: K, value: V)
        requires
            slots_wf(old(slots)@),
            count_used(old(slots)@) < old(slots)@.len(),
            !entries(old(slots)@).contains_key(key@),
            forall|i: int| 0 <= i < old(slots)@.len() ==> !(old(slots)@[i] is Tombstone),
        ensures
            slots_wf(final(slots)@),
            final(slots)@.len() == old(slots)@.len(),
            entries(final(slots)@) == entries(old(slots)@).insert(key@, value),
            count_used(final(slots)@) == count_used(old(slots)@) + 1,
            count_occupied(final(slots)@) == count_occupied(old(slots)@) + 1,
            forall|i: int| 0 <= i < final(slots)@.len() ==> !(final(slots)@[i] is Tombstone),
    {
        let cap: usize = slots.len();
        let hash: u64 = key.kernel_hash();
        let mut index: usize = Self::slot_index(hash, cap);
        let ghost h = index as int;
        let ghost mut d: int = 0;
        let ghost e = lemma_has_empty(slots@);
        proof {
            lemma_ring(h, e, cap as int);
        }
        while !slots[index].is_empty()
            invariant
                slots@ == old(slots)@,
                cap == slots@.len(),
                0 <= h < cap,
                h == home(K::hash_of(key@), cap as int),
                0 <= d <= ring_distance(h, e, cap as int) < cap,
                0 <= e < cap,
                slots@[e] is Empty,
                ring(h, ring_distance(h, e, cap as int), cap as int) == e,
                index == ring(h, d, cap as int),
                index < cap,
                forall|x: int|
                    0 <= x < d ==> !((#[trigger] slots@[ring(h, x, cap as int)]) is Empty),
            decreases cap - d,
        {
            proof {
                d = d + 1;
            }
            index = if index + 1 == cap {
                0
            } else {
                index + 1
            };
        }
        proof {
            assert(ring_distance(h, index as int, cap as int) == d);
            lemma_place(slots@, index as int, key, value);
            lemma_count_update(slots@, index as int, Slot::Occupied(key, value));
        }
        slots.set(index, Slot::Occupied(key, value));
    }

    /// Moves all entries into a new array of `new_cap` slots.
    fn rehash(&mut self, new_cap: usize)
        requires
            old(self).wf(),
            is_pow2(new_cap as int),
            new_cap >= MIN_CAPACITY,
            old(self)@.dom().len() * 10 <= new_cap * 7,
        ensures
            final(self).wf(),
            final(self)@ == old(self)@,
            final(self).capacity() == new_cap,
            final(self).used * 10 <= new_cap * 7,
            final(self).load() == old(self)@.dom().len(),
    {
        let mut new_slots: Vec<Slot<K, V>> = Vec::with_capacity(new_cap);
        let mut n: usize = 0;
        while n < new_cap
            invariant
                n == new_slots@.len(),
                n <= new_cap,
                forall|i: int| 0 <= i < n ==> new_slots@[i] is Empty,
            decreases new_cap - n,
        {
            new_slots.push(Slot::Empty);
            n = n + 1;
        }
        proof {
            lemma_count_empty(new_slots@);
            lemma_entries(new_slots@);
        }
        let mut old_slots: Vec<Slot<K, V>> = Vec::new();
        core::mem::swap(&mut self.slots, &mut old_slots);
        let ghost slots = old_slots@;
        proof {
            lemma_entries_len(slots);
            assert(entries(new_slots@) =~= entries(slots.take(0)));
        }
        let mut i: usize = 0;
        while i < old_slots.len()
            invariant
                i <= slots.len(),
                old_slots@.len() == slots.len(),
                forall|j: int| i <= j < slots.len() ==> old_slots@[j] == slots[j],
                keys_distinct(slots),
                count_occupied(slots) * 10 <= new_cap * 7,
                new_cap >= MIN_CAPACITY,
                slots_wf(new_slots@),
                new_slots@.len() == new_cap,
                entries(new_slots@) == entries(slots.take(i as int)),
                count_used(new_slots@) == count_occupied(slots.take(i as int)),
                count_occupied(new_slots@) == count_occupied(slots.take(i as int)),
                forall|j: int| 0 <= j < new_slots@.len() ==> !(new_slots@[j] is Tombstone),
            decreases slots.len() - i,
        {
            let mut slot: Slot<K, V> = Slot::Empty;
            core::mem::swap(&mut old_slots[i], &mut slot);
            proof {
                let front = slots.take(i + 1);
                assert(front.drop_last() =~= slots.take(i as int));
                assert(keys_distinct(front)) by {
                    assert forall|a: int, b: int|
                        0 <= a < front.len() && 0 <= b < front.len() && (
                        #[trigger] front[a]) is Occupied && (#[trigger] front[b]) is Occupied
                            && front[a]->Occupied_0@ == front[b]->Occupied_0@ implies a == b by {
                        assert(front[a] == slots[a] && front[b] == slots[b]);
                    }
                }
                lemma_entries_last(front);
                lemma_count_prefix(slots, i + 1);
            }
            if let Slot::Occupied(k, v) = slot {
                Self::place(&mut new_slots, k, v);
            }
            i = i + 1;
        }
        assert(slots.take(i as int) =~= slots);
        self.slots = new_slots;
        self.used = self.len;
    }

    /// Makes room for one more entry.
    fn maybe_grow(&mut self)
        requires
            old(self).wf(),
            old(self).can_grow(),
        ensures
            final(self).wf(),
            final(self)@ == old(self)@,
            final(self).capacity() > 0,
            final(self).used * 10 <= final(self).capacity() * 7,
            final(self).capacity() == grown(old(self).capacity(), old(self).load()),
            final(self).load() == grown_load(
                old(self).capacity(),
                old(self).load(),
                old(self)@.dom().len(),
            ),
    {
        let cap: usize = self.slots.len();
        proof {
            lemma_entries_len(self.slots@);
            lemma_count_bounds(self.slots@);
        }
        if cap == 0 || self.used as u128 * LOAD_FACTOR_DEN as u128 > cap as u128
            * LOAD_FACTOR_NUM as u128 {
            let new_cap: usize = if cap == 0 {
                MIN_CAPACITY
            } else {
                cap * 2
            };
            proof {
                if cap == 0 {
                    lemma_min_capacity_is_pow2();
                } else {
                    lemma_double_is_pow2(cap as int);
                }
            }
            self.rehash(new_cap);
        }
    }
}

/// Of two powers of two, the larger is at least twice the smaller.
proof fn lemma_pow2_gap(a: int, b: int)
    requires
        is_pow2(a),
        is_pow2(b),
        a < b,
    ensures
        2 * a <= b,
    decreases b,
{
    reveal_with_fuel(is_pow2, 2);
    if a != 1 {
        lemma_pow2_gap(a / 2, b / 2);
    }
}

/// Finds the smallest power of two that is at least `n`.
pub fn next_power_of_two(n: usize) -> (r: usize)
    requires
        n <= usize::MAX / 2,
    ensures
        is_pow2(r as int),
        n <= r,
        forall|p: int| is_pow2(p) && n <= p ==> r <= p,
{
    let mut p: usize = 1;
    proof {
        reveal_with_fuel(is_pow2, 1);
    }
    while p < n
        invariant
            is_pow2(p as int),
            n <= usize::MAX / 2,
            p == 1 || p < 2 * n,
            forall|q: int| is_pow2(q) && n <= q ==> p <= q,
            p >= 1,
        decreases 2 * n - p,
    {
        proof {
            lemma_double_is_pow2(p as int);
            assert forall|q: int| is_pow2(q) && n <= q implies 2 * p <= q by {
                lemma_pow2_gap(p as int, q);
            }
        }
        p = p * 2;
    }
    assert forall|q: int| is_pow2(q) && n <= q implies p <= q by {
        reveal_with_fuel(is_pow2, 1);
    }
    p
}

/// A capacity that holds `len` entries within the load limit.
pub open spec fn fits(capacity: int, len: nat) -> bool {
    is_pow2(capacity) && capacity >= MIN_CAPACITY && len * LOAD_FACTOR_DEN <= capacity
        * LOAD_FACTOR_NUM
}

impl<K: KernelHash, V> KernelHashMap<K, V> {
    /// Constructs an empty map, without an array.
    pub fn new() -> (r: Self)
        ensures
            r.wf(),
            r@ == Map::<K::V, V>::empty(),
            r.capacity() == 0,
            r.load() == 0,
    {
        let r = KernelHashMap { slots: Vec::new(), len: 0, used: 0 };
        proof {
            lemma_entries(r.slots@);
            assert(r@ =~= Map::<K::V, V>::empty());
        }
        r
    }

    /// Gets the number of entries.
    pub fn len(&self) -> (r: usize)
        requires
            self.wf(),
        ensures
            self@.dom().finite(),
            r == self@.dom().len(),
    {
        proof {
            lemma_entries_len(self.slots@);
        }
        self.len
    }

    /// Checks if the array that an insertion may need is within the limits of
    /// the machine.
    pub fn has_room(&self) -> (r: bool)
        ensures
            r == self.can_grow(),
    {
        let cap: usize = self.slots.len();
        let used: usize = self.used;
        cap == 0 || used as u128 * LOAD_FACTOR_DEN as u128 <= cap as u128
            * LOAD_FACTOR_NUM as u128 || cap <= usize::MAX / 2
    }

    /// Checks if the map has no entry.
    pub fn is_empty(&self) -> (r: bool)
        requires
            self.wf(),
        ensures
            r == (self@ == Map::<K::V, V>::empty()),
    {
        proof {
            lemma_entries_len(self.slots@);
            if self@.dom().len() == 0 {
                assert(self@ =~= Map::<K::V, V>::empty());
            }
        }
        self.len == 0
    }

    /// Associates `value` with `key`, and hands back the value that the key
    /// had.
    pub fn insert(&mut self, key: K, value: V) -> (r: Option<V>)
        requires
            old(self).wf(),
            old(self).can_grow(),
        ensures
            final(self).wf(),
            final(self)@ == old(self)@.insert(key@, value),
            r == if old(self)@.contains_key(key@) {
                Some(old(self)@[key@])
            } else {
                None
            },
            old(self).made_room(final(self), old(self)@.contains_key(key@)),
    {
        self.maybe_grow();
        let (index, found) = self.probe(&key);
        let ghost slots = self.slots@;
        proof {
            lemma_entries(slots);
        }
        let mut slot: Slot<K, V> = Slot::Occupied(key, value);
        proof {
            if found {
                lemma_replace(slots, index as int, key, value);
            } else {
                lemma_place(slots, index as int, key, value);
            }
            lemma_count_update(slots, index as int, slot);
            lemma_count_bounds(slots.update(index as int, slot));
            lemma_entries_len(slots.update(index as int, slot));
        }
        core::mem::swap(&mut self.slots[index], &mut slot);
        match slot {
            Slot::Occupied(_, v) => Some(v),
            Slot::Tombstone => {
                self.len = self.len + 1;
                None
            },
            Slot::Empty => {
                self.len = self.len + 1;
                self.used = self.used + 1;
                None
            },
        }
    }

    /// Gets the value of `key`.
    pub fn get(&self, key: &K) -> (r: Option<&V>)
        requires
            self.wf(),
        ensures
            match r {
                Some(v) => self@.contains_key(key@) && self@[key@] == *v,
                None => !self@.contains_key(key@),
            },
    {
        proof {
            lemma_entries(self.slots@);
        }
        if self.slots.len() == 0 {
            return None;
        }
        let (index, found) = self.probe(key);
        if found {
            if let Slot::Occupied(_, v) = &self.slots[index] {
                return Some(v);
            }
        }
        None
    }

    /// Gets the value of `key`, to be changed in place.
    pub fn get_mut(&mut self, key: &K) -> (r: Option<&mut V>)
        requires
            old(self).wf(),
        ensures
            final(self).wf(),
            final(self).capacity() == old(self).capacity(),
            final(self).load() == old(self).load(),
            match r {
                Some(v) => {
                    &&& old(self)@.contains_key(key@)
                    &&& *v == old(self)@[key@]
                    &&& final(self)@ == old(self)@.insert(key@, *final(v))
                },
                None => {
                    &&& !old(self)@.contains_key(key@)
                    &&& final(self)@ == old(self)@
                },
            },
    {
        proof {
            lemma_entries(self.slots@);
        }
        if self.slots.len() == 0 {
            return None;
        }
        let (index, found) = self.probe(key);
        if !found {
            return None;
        }
        let ghost slots = self.slots@;
        assert forall|s: Slot<K, V>| s is Occupied && s->Occupied_0@ == key@ implies {
            &&& slots_wf(#[trigger] slots.update(index as int, s))
            &&& entries(slots.update(index as int, s)) == entries(slots).insert(
                key@,
                s->Occupied_1,
            )
            &&& count_occupied(slots.update(index as int, s)) == count_occupied(slots)
            &&& count_used(slots.update(index as int, s)) == count_used(slots)
        } by {
            lemma_replace(slots, index as int, s->Occupied_0, s->Occupied_1);
            lemma_count_update(slots, index as int, s);
        }
        match &mut self.slots[index] {
            Slot::Occupied(_, v) => Some(v),
            _ => None,
        }
    }

    /// Checks if `key` has a value.
    pub fn contains_key(&self, key: &K) -> (r: bool)
        requires
            self.wf(),
        ensures
            r == self@.contains_key(key@),
    {
        self.get(key).is_some()
    }

    /// Removes `key` and hands back its value.
    pub fn remove(&mut self, key: &K) -> (r: Option<V>)
        requires
            old(self).wf(),
        ensures
            final(self).wf(),
            final(self)@ == old(self)@.remove(key@),
            final(self).load() == old(self).load(),
            r == if old(self)@.contains_key(key@) {
                Some(old(self)@[key@])
            } else {
                None
            },
            final(self).capacity() == old(self).capacity(),
    {
        proof {
            lemma_entries(self.slots@);
        }
        if self.slots.len() == 0 {
            assert(self@.remove(key@) =~= self@);
            return None;
        }
        let (index, found) = self.probe(key);
        if !found {
            assert(self@.remove(key@) =~= self@);
            return None;
        }
        let ghost slots = self.slots@;
        let mut slot: Slot<K, V> = Slot::Tombstone;
        proof {
            lemma_bury(slots, index as int);
            lemma_count_update(slots, index as int, slot);
        }
        core::mem::swap(&mut self.slots[index], &mut slot);
        self.len = self.len - 1;
        match slot {
            Slot::Occupied(_, v) => Some(v),
            _ => None,
        }
    }

    /// Lists the keys, in no particular order.
    pub fn keys(&self) -> (r: Vec<&K>)
        requires
            self.wf(),
        ensures
            r@.len() == self@.dom().len(),
            forall|i: int| 0 <= i < r@.len() ==> self@.contains_key((#[trigger] r@[i])@),
            forall|i: int, j: int| 0 <= i < j < r@.len() ==> (#[trigger] r@[i])@ != (
            #[trigger] r@[j])@,
            forall|k: K::V| #[trigger]
                self@.contains_key(k) ==> exists|i: int| 0 <= i < r@.len() && (#[trigger] r@[i])@
                    == k,
    {
        let pairs = self.iter();
        let mut r: Vec<&K> = Vec::new();
        let mut i: usize = 0;
        while i < pairs.len()
            invariant
                i <= pairs@.len(),
                i == r@.len(),
                forall|j: int| 0 <= j < i ==> #[trigger] r@[j] == pairs@[j].0,
            decreases pairs@.len() - i,
        {
            r.push(pairs[i].0);
            i = i + 1;
        }
        assert forall|k: K::V| #[trigger] self@.contains_key(k) implies exists|i: int|
            0 <= i < r@.len() && (#[trigger] r@[i])@ == k by {
            let i = choose|i: int| 0 <= i < pairs@.len() && (#[trigger] pairs@[i]).0@ == k;
            assert(r@[i]@ == k);
        }
        r
    }

    /// Lists the entries, in no particular order.
    pub fn iter(&self) -> (r: Vec<(&K, &V)>)
        requires
            self.wf(),
        ensures
            r@.len() == self@.dom().len(),
            forall|i: int|
                0 <= i < r@.len() ==> self@.contains_key((#[trigger] r@[i]).0@) && self@[r@[i].0@]
                    == *r@[i].1,
            forall|i: int, j: int| 0 <= i < j < r@.len() ==> (#[trigger] r@[i]).0@ != (
            #[trigger] r@[j]).0@,
            forall|k: K::V| #[trigger]
                self@.contains_key(k) ==> exists|i: int| 0 <= i < r@.len() && (#[trigger] r@[i]).0@
                    == k,
    {
        let mut r: Vec<(&K, &V)> = Vec::new();
        let mut i: usize = 0;
        let ghost slots = self.slots@;
        let ghost mut at: Seq<int> = seq![];
        proof {
            lemma_entries(slots);
            lemma_entries_len(slots);
        }
        while i < self.slots.len()
            invariant
                slots == self.slots@,
                self.wf(),
                i <= slots.len(),
                at.len() == r@.len(),
                r@.len() == count_occupied(slots.take(i as int)),
                forall|j: int|
                    0 <= j < at.len() ==> 0 <= #[trigger] at[j] < i && slots[at[j]] is Occupied
                        && r@[j].0 == slots[at[j]]->Occupied_0 && r@[j].1
                        == slots[at[j]]->Occupied_1,
                forall|j: int, k: int| 0 <= j < k < at.len() ==> #[trigger] at[j] < #[trigger] at[k],
                forall|s: int|
                    0 <= s < i && (#[trigger] slots[s]) is Occupied ==> exists|j: int|
                        0 <= j < at.len() && #[trigger] at[j] == s,
            decreases slots.len() - i,
        {
            proof {
                assert(slots.take(i + 1).drop_last() =~= slots.take(i as int));
            }
            let ghost before = at;
            if let Slot::Occupied(k, v) = &self.slots[i] {
                r.push((k, v));
                proof {
                    at = at.push(i as int);
                    assert(at[before.len() as int] == i);
                    assert forall|s: int| 0 <= s < i + 1 && (
                    #[trigger] slots[s]) is Occupied implies exists|j: int|
                        0 <= j < at.len() && #[trigger] at[j] == s by {
                        if s < i {
                            let j = choose|j: int| 0 <= j < before.len() && #[trigger] before[j]
                                == s;
                            assert(at[j] == s);
                        }
                    }
                }
            }
            i = i + 1;
        }
        proof {
            assert(slots.take(i as int) =~= slots);
            assert forall|i: int| 0 <= i < r@.len() implies self@.contains_key(
                (#[trigger] r@[i]).0@,
            ) && self@[r@[i].0@] == *r@[i].1 by {
                assert(slots[at[i]] is Occupied);
            }
            assert forall|i: int, j: int| 0 <= i < j < r@.len() implies (#[trigger] r@[i]).0@ != (
            #[trigger] r@[j]).0@ by {
                assert(at[i] < at[j]);
                assert(slots[at[i]] is Occupied && slots[at[j]] is Occupied);
            }
            assert forall|k: K::V| #[trigger] self@.contains_key(k) implies exists|i: int|
                0 <= i < r@.len() && (#[trigger] r@[i]).0@ == k by {
                let s = choose|s: int| holds(slots, s, k);
                assert(slots[s] is Occupied);
                let j = choose|j: int| 0 <= j < at.len() && #[trigger] at[j] == s;
                assert(r@[j].0@ == k);
            }
        }
        r
    }

    /// Keeps the entries for which `predicate` answers `true`. The predicate
    /// may change the values.
    pub fn retain<F: FnMut(&K, &mut V) -> bool>(&mut self, mut predicate: F)
        requires
            old(self).wf(),
            forall|k: &K, v: &mut V| predicate.requires((k, v)),
        ensures
            final(self).wf(),
            final(self).capacity() == old(self).capacity(),
            final(self).load() == old(self).load(),
            forall|k: K::V| #[trigger]
                final(self)@.contains_key(k) ==> old(self)@.contains_key(k),
            forall|k: K::V| #[trigger]
                old(self)@.contains_key(k) ==> exists|key: &K, v: &mut V, keep: bool|
                    {
                        &&& key@ == k
                        &&& *v == old(self)@[k]
                        &&& #[trigger] predicate.ensures((key, v), keep)
                        &&& keep == final(self)@.contains_key(k)
                        &&& keep ==> final(self)@[k] == *final(v)
                    },
    {
        let ghost slots = self.slots@;
        let ghost f0 = predicate;
        let mut i: usize = 0;
        while i < self.slots.len()
            invariant
                predicate == f0,
                old(self).wf(),
                slots == old(self).slots@,
                i <= slots.len(),
                self.slots@.len() == slots.len(),
                self.wf(),
                self.used == old(self).used,
                forall|k: &K, v: &mut V| predicate.requires((k, v)),
                forall|j: int| i <= j < slots.len() ==> self.slots@[j] == slots[j],
                forall|j: int|
                    #![trigger slots[j]]
                    #![trigger self.slots@[j]]
                    0 <= j < slots.len() && self.slots@[j] is Occupied ==> slots[j] is Occupied
                        && slots[j]->Occupied_0 == self.slots@[j]->Occupied_0,
                forall|j: int|
                    0 <= j < i && (#[trigger] slots[j]) is Occupied ==> exists|
                        v: &mut V,
                        keep: bool,
                    |
                        {
                            &&& *v == slots[j]->Occupied_1
                            &&& #[trigger] predicate.ensures((&slots[j]->Occupied_0, v), keep)
                            &&& keep == (self.slots@[j] is Occupied)
                            &&& keep ==> self.slots@[j]->Occupied_1 == *final(v)
                        },
            decreases slots.len() - i,
        {
            let ghost now = self.slots@;
            let mut drop_it = false;
            match &mut self.slots[i] {
                Slot::Occupied(k, v) => {
                    if !predicate(k, v) {
                        drop_it = true;
                    }
                },
                _ => {},
            }
            proof {
                if now[i as int] is Occupied {
                    let value = self.slots@[i as int]->Occupied_1;
                    let key = now[i as int]->Occupied_0;
                    lemma_replace(now, i as int, key, value);
                    lemma_count_update(now, i as int, Slot::Occupied(key, value));
                } else {
                    assert(self.slots@ =~= now);
                }
                assert(self.slots@ =~= now.update(i as int, self.slots@[i as int]));
            }
            if drop_it {
                proof {
                    lemma_bury(self.slots@, i as int);
                    lemma_count_update(self.slots@, i as int, Slot::Tombstone);
                    lemma_count_bounds(self.slots@);
                }
                self.slots.set(i, Slot::Tombstone);
                self.len = self.len - 1;
            }
            i = i + 1;
        }
        proof {
            lemma_entries(slots);
            lemma_entries(self.slots@);
            assert forall|k: K::V| #[trigger] self@.contains_key(k) implies old(
                self,
            )@.contains_key(k) by {
                let j = choose|j: int| holds(self.slots@, j, k);
                assert(holds(slots, j, k));
            }
            assert forall|k: K::V| #[trigger] old(self)@.contains_key(k) implies exists|
                key: &K,
                v: &mut V,
                keep: bool,
            |
                {
                    &&& key@ == k
                    &&& *v == old(self)@[k]
                    &&& #[trigger] predicate.ensures((key, v), keep)
                    &&& keep == self@.contains_key(k)
                    &&& keep ==> self@[k] == *final(v)
                } by {
                let j = choose|j: int| holds(slots, j, k);
                assert(slots[j] is Occupied);
                let key = &slots[j]->Occupied_0;
                let (v, keep) = choose|v: &mut V, keep: bool|
                    {
                        &&& *v == slots[j]->Occupied_1
                        &&& #[trigger] predicate.ensures((&slots[j]->Occupied_0, v), keep)
                        &&& keep == (self.slots@[j] is Occupied)
                        &&& keep ==> self.slots@[j]->Occupied_1 == *final(v)
                    };
                assert(predicate.ensures((key, v), keep));
                if keep {
                    assert(holds(self.slots@, j, k));
                } else if self@.contains_key(k) {
                    let x = choose|x: int| holds(self.slots@, x, k);
                    assert(slots[x] is Occupied);
                }
            }
        }
    }

    /// Moves the entries into the smallest array that holds them within the
    /// load limit, if that is smaller than the present one.
    pub fn shrink(&mut self)
        requires
            old(self).wf(),
        ensures
            final(self).wf(),
            final(self)@ == old(self)@,
            final(self).capacity() <= old(self).capacity(),
            final(self).load() == if final(self).capacity() == old(self).capacity() {
                old(self).load()
            } else {
                old(self)@.dom().len()
            },
            final(self).capacity() == old(self).capacity() || fits(
                final(self).capacity() as int,
                old(self)@.dom().len(),
            ),
            forall|c: int|
                #![trigger fits(c, old(self)@.dom().len())]
                fits(c, old(self)@.dom().len()) ==> final(self).capacity() <= c
                    || old(self).capacity() <= c,
    {
        proof {
            lemma_entries_len(self.slots@);
            lemma_count_bounds(self.slots@);
        }
        let wanted: u128 = (self.len as u128 * LOAD_FACTOR_DEN as u128 + 6)
            / LOAD_FACTOR_NUM as u128;
        let target: u128 = if wanted < MIN_CAPACITY as u128 {
            MIN_CAPACITY as u128
        } else {
            wanted
        };
        let half: u128 = self.slots.len() as u128 / 2;
        if target <= half {
            let new_cap: usize = next_power_of_two(target as usize);
            proof {
                reveal_with_fuel(is_pow2, 2);
                assert(is_pow2(self.slots@.len() as int / 2));
            }
            self.rehash(new_cap);
        } else {
            proof {
                assert forall|c: int| fits(c, old(self)@.dom().len()) implies old(self).capacity()
                    <= c by {
                    if c < old(self).capacity() {
                        lemma_pow2_gap(c, old(self).capacity() as int);
                    }
                }
            }
        }
    }
}

/// Removing a key that was absent until it was inserted gives its value and the
/// map from before; removing a key that is absent changes nothing.
pub proof fn remove_undoes_insert<K, V>(map: Map<K, V>, key: K, value: V)
    requires
        !map.contains_key(key),
    ensures
        map.insert(key, value).contains_key(key),
        map.insert(key, value)[key] == value,
        map.insert(key, value).remove(key) == map,
        map.remove(key) == map,
{
    assert(map.insert(key, value).remove(key) =~= map);
    assert(map.remove(key) =~= map);
}

/// The length of the array after `n` insertions of new keys into a new map.
pub open spec fn capacity_for(n: nat) -> nat
    decreases n,
{
    if n == 0 {
        0
    } else {
        grown(capacity_for((n - 1) as nat), (n - 1) as nat)
    }
}

/// As long as nothing is removed, there are no tombstones: the load is the
/// number of entries, and that number gives the length of the array. An
/// insertion of a new key keeps this up.
pub proof fn insertions_fill_the_array<K: KernelHash, V>(
    before: KernelHashMap<K, V>,
    after: KernelHashMap<K, V>,
    key: K::V,
    value: V,
)
    requires
        before.wf(),
        after.wf(),
        before.load() == before@.dom().len(),
        before.capacity() == capacity_for(before@.dom().len()),
        !before@.contains_key(key),
        after@ == before@.insert(key, value),
        before.made_room(&after, false),
    ensures
        after@.dom().len() == before@.dom().len() + 1,
        after.load() == after@.dom().len(),
        after.capacity() == capacity_for(after@.dom().len()),
{
    capacity_is_sound(before);
    capacity_is_sound(after);
}

/// The array is empty or its length is a power of two, at least eight, and
/// then one slot at least is free: no search goes round for ever.
pub proof fn capacity_is_sound<K: KernelHash, V>(map: KernelHashMap<K, V>)
    requires
        map.wf(),
    ensures
        map.capacity() == 0 || (is_pow2(map.capacity() as int) && map.capacity() >= MIN_CAPACITY),
        map@.dom().finite(),
        map@.dom().len() <= map.load(),
        map.capacity() > 0 ==> map.load() < map.capacity(),
{
    lemma_entries_len(map.slots@);
    lemma_count_bounds(map.slots@);
}

/// Giving a key that is there a new value.
proof fn lemma_replace<K: KernelHash, V>(slots: Seq<Slot<K, V>>, i: int, key: K, value: V)
    requires
        slots_wf(slots),
        holds(slots, i, key@),
    ensures
        slots_wf(slots.update(i, Slot::Occupied(key, value))),
        entries(slots.update(i, Slot::Occupied(key, value))) == entries(slots).insert(key@, value),
{
    let next = slots.update(i, Slot::Occupied(key, value));
    lemma_entries(slots);
    assert(chain_to(slots, key@, i)) by {
        assert(slots[i] is Occupied);
    }
    assert forall|a: int, b: int|
        0 <= a < next.len() && 0 <= b < next.len() && (#[trigger] next[a]) is Occupied && (
        #[trigger] next[b]) is Occupied && next[a]->Occupied_0@ == next[b]->Occupied_0@ implies a
        == b by {
        assert(slots[a] is Occupied && slots[b] is Occupied);
    }
    lemma_chains_after_fill(slots, i, Slot::Occupied(key, value));
    lemma_entries(next);
    assert forall|k: K::V| entries(next).contains_key(k) <==> #[trigger] entries(slots).insert(
        key@,
        value,
    ).contains_key(k) by {
        if entries(next).contains_key(k) {
            let j = choose|j: int| holds(next, j, k);
            assert(holds(slots, j, k));
        }
        if entries(slots).contains_key(k) {
            let j = choose|j: int| holds(slots, j, k);
            assert(holds(next, j, k));
        }
        if k == key@ {
            assert(holds(next, i, k));
        }
    }
    assert forall|k: K::V| #[trigger] entries(next).contains_key(k) implies entries(next)[k]
        == entries(slots).insert(key@, value)[k] by {
        let j = choose|j: int| holds(next, j, k);
        assert(next[j] is Occupied);
        assert(slots[j] is Occupied);
        if j != i && k == key@ {
            assert(slots[i] is Occupied);
        }
    }
    assert(entries(next) =~= entries(slots).insert(key@, value));
}

/// A tombstone in place of an entry removes that entry.
proof fn lemma_bury<K: KernelHash, V>(slots: Seq<Slot<K, V>>, i: int)
    requires
        slots_wf(slots),
        0 <= i < slots.len(),
        slots[i] is Occupied,
    ensures
        slots_wf(slots.update(i, Slot::Tombstone)),
        entries(slots.update(i, Slot::Tombstone)) == entries(slots).remove(
            slots[i]->Occupied_0@,
        ),
{
    let next = slots.update(i, Slot::Tombstone);
    let key = slots[i]->Occupied_0@;
    lemma_entries(slots);
    assert forall|a: int, b: int|
        0 <= a < next.len() && 0 <= b < next.len() && (#[trigger] next[a]) is Occupied && (
        #[trigger] next[b]) is Occupied && next[a]->Occupied_0@ == next[b]->Occupied_0@ implies a
        == b by {
        assert(slots[a] is Occupied && slots[b] is Occupied);
    }
    lemma_chains_after_fill(slots, i, Slot::Tombstone);
    lemma_entries(next);
    assert forall|k: K::V| entries(next).contains_key(k) <==> #[trigger] entries(slots).remove(
        key,
    ).contains_key(k) by {
        if entries(next).contains_key(k) {
            let j = choose|j: int| holds(next, j, k);
            assert(holds(slots, j, k));
            assert(slots[j] is Occupied);
        }
        if entries(slots).contains_key(k) && k != key {
            let j = choose|j: int| holds(slots, j, k);
            assert(holds(next, j, k));
        }
    }
    assert forall|k: K::V| #[trigger] entries(next).contains_key(k) implies entries(next)[k]
        == entries(slots)[k] by {
        let j = choose|j: int| holds(next, j, k);
        assert(next[j] is Occupied);
        assert(slots[j] is Occupied);
    }
    assert(entries(next) =~= entries(slots).remove(key));
}

/// What [`KernelHashMap::entry`] found for a key.
pub enum Entry<'a, K, V> {
    Occupied(OccupiedEntry<'a, K, V>),
    Vacant(VacantEntry<'a, K, V>),
}

/// A key that the map holds.
pub struct OccupiedEntry<'a, K, V> {
    pub map: &'a mut KernelHashMap<K, V>,
    pub key: K,
    /// The slot that holds the key.
    pub index: usize,
}

/// A key that the map does not hold.
pub struct VacantEntry<'a, K, V> {
    pub map: &'a mut KernelHashMap<K, V>,
    pub key: K,
    /// The slot where the key belongs.
    pub index: usize,
}

impl<'a, K: KernelHash, V> OccupiedEntry<'a, K, V> {
    /// The map is sound and holds the key in the recorded slot.
    pub closed spec fn wf(&self) -> bool {
        self.map.wf() && holds(self.map.slots@, self.index as int, self.key@)
    }

    /// Turns the entry into a reference to its value.
    pub fn into_mut(self) -> (r: &'a mut V)
        requires
            self.wf(),
        ensures
            old(self.map)@.contains_key(self.key@),
            *r == old(self.map)@[self.key@],
            final(self.map).wf(),
            final(self.map)@ == old(self.map)@.insert(self.key@, *final(r)),
            final(self.map).capacity() == old(self.map).capacity(),
            final(self.map).load() == old(self.map).load(),
    {
        let ghost slots = self.map.slots@;
        let index: usize = self.index;
        let ghost key = self.key@;
        proof {
            lemma_entries(slots);
        }
        assert forall|s: Slot<K, V>| s is Occupied && s->Occupied_0@ == key implies {
            &&& slots_wf(#[trigger] slots.update(index as int, s))
            &&& entries(slots.update(index as int, s)) == entries(slots).insert(key, s->Occupied_1)
            &&& count_occupied(slots.update(index as int, s)) == count_occupied(slots)
            &&& count_used(slots.update(index as int, s)) == count_used(slots)
        } by {
            lemma_replace(slots, index as int, s->Occupied_0, s->Occupied_1);
            lemma_count_update(slots, index as int, s);
        }
        match &mut self.map.slots[index] {
            Slot::Occupied(_, v) => v,
            _ => vstd::pervasive::unreached(),
        }
    }
}

impl<'a, K: KernelHash, V> VacantEntry<'a, K, V> {
    /// The map is sound, has room, and lacks the key, whose chain leads to the
    /// recorded slot.
    pub closed spec fn wf(&self) -> bool {
        &&& self.map.wf()
        &&& self.map.used * 10 <= self.map.slots@.len() * 7
        &&& self.index < self.map.slots@.len()
        &&& !(self.map.slots@[self.index as int] is Occupied)
        &&& chain_to(self.map.slots@, self.key@, self.index as int)
        &&& !self.map@.contains_key(self.key@)
    }

    /// Gives the key a value, and hands out a reference to it.
    pub fn insert(self, value: V) -> (r: &'a mut V)
        requires
            self.wf(),
        ensures
            *r == value,
            final(self.map).wf(),
            final(self.map)@ == old(self.map)@.insert(self.key@, *final(r)),
            final(self.map).capacity() == old(self.map).capacity(),
            load_after_insert(old(self.map).load(), false, final(self.map).load()),
            final(self.map)@.dom().len() <= final(self.map).load(),
    {
        let VacantEntry { map, key, index } = self;
        let ghost before = map.slots@;
        let ghost k = key@;
        proof {
            lemma_place(before, index as int, key, value);
            lemma_count_update(before, index as int, Slot::Occupied(key, value));
            lemma_count_bounds(before.update(index as int, Slot::Occupied(key, value)));
            assert(map.slots.len() <= usize::MAX);
        }
        let was_tombstone = matches!(map.slots[index], Slot::Tombstone);
        map.slots.set(index, Slot::Occupied(key, value));
        map.len = map.len + 1;
        if !was_tombstone {
            map.used = map.used + 1;
        }
        let ghost slots = map.slots@;
        assert forall|s: Slot<K, V>| s is Occupied && s->Occupied_0@ == k implies {
            &&& slots_wf(#[trigger] slots.update(index as int, s))
            &&& entries(slots.update(index as int, s)) == entries(before).insert(k, s->Occupied_1)
            &&& entries(slots.update(index as int, s)).dom().len() <= count_used(slots)
            &&& count_occupied(slots.update(index as int, s)) == count_occupied(slots)
            &&& count_used(slots.update(index as int, s)) == count_used(slots)
        } by {
            lemma_count_bounds(slots.update(index as int, s));
            lemma_replace(slots, index as int, s->Occupied_0, s->Occupied_1);
            lemma_count_update(slots, index as int, s);
            lemma_entries_len(slots.update(index as int, s));
            assert(entries(slots).insert(k, s->Occupied_1) =~= entries(before).insert(
                k,
                s->Occupied_1,
            ));
        }
        match &mut map.slots[index] {
            Slot::Occupied(_, v) => v,
            _ => vstd::pervasive::unreached(),
        }
    }
}

impl<'a, K: KernelHash, V> Entry<'a, K, V> {
    /// Gives the key the value that `f` makes, unless it has one, and hands
    /// out a reference to its value.
    pub fn or_insert_with<F: FnOnce() -> V>(self, f: F) -> (r: &'a mut V)
        requires
            match self {
                Entry::Occupied(e) => e.wf(),
                Entry::Vacant(e) => e.wf() && f.requires(()),
            },
        ensures
            match self {
                Entry::Occupied(e) => {
                    &&& *r == e.map@[e.key@]
                    &&& final(e.map).wf()
                    &&& final(e.map)@ == e.map@.insert(e.key@, *final(r))
                    &&& final(e.map).capacity() == e.map.capacity()
                    &&& final(e.map).load() == e.map.load()
                },
                Entry::Vacant(e) => {
                    &&& f.ensures((), *r)
                    &&& final(e.map).wf()
                    &&& final(e.map)@ == e.map@.insert(e.key@, *final(r))
                    &&& final(e.map).capacity() == e.map.capacity()
                    &&& load_after_insert(e.map.load(), false, final(e.map).load())
                    &&& final(e.map)@.dom().len() <= final(e.map).load()
                },
            },
    {
        match self {
            Entry::Occupied(e) => e.into_mut(),
            Entry::Vacant(e) => e.insert(f()),
        }
    }
}

impl<K: KernelHash, V> KernelHashMap<K, V> {
    /// Looks `key` up, ready to insert it.
    pub fn entry<'a>(&'a mut self, key: K) -> (r: Entry<'a, K, V>)
        requires
            old(self).wf(),
            old(self).can_grow(),
        ensures
            match r {
                Entry::Occupied(e) => {
                    &&& old(self)@.contains_key(key@)
                    &&& e.wf()
                    &&& e.key == key
                    &&& e.map@ == old(self)@
                    &&& *final(e.map) == *final(self)
                    &&& e.map.wf()
                    &&& e.map.capacity() == grown(old(self).capacity(), old(self).load())
                    &&& e.map.load() == grown_load(
                        old(self).capacity(),
                        old(self).load(),
                        old(self)@.dom().len(),
                    )
                },
                Entry::Vacant(e) => {
                    &&& !old(self)@.contains_key(key@)
                    &&& e.wf()
                    &&& e.key == key
                    &&& e.map@ == old(self)@
                    &&& *final(e.map) == *final(self)
                    &&& e.map.wf()
                    &&& e.map.capacity() == grown(old(self).capacity(), old(self).load())
                    &&& e.map.load() == grown_load(
                        old(self).capacity(),
                        old(self).load(),
                        old(self)@.dom().len(),
                    )
                },
            },
    {
        self.maybe_grow();
        let (index, found) = self.probe(&key);
        if found {
            Entry::Occupied(OccupiedEntry { map: self, key, index })
        } else {
            Entry::Vacant(VacantEntry { map: self, key, index })
        }
    }
}

impl<K: KernelHash, V> Default for KernelHashMap<K, V> {
    fn default() -> (r: Self)
        ensures
            r.wf(),
            r@ == Map::<K::V, V>::empty(),
            r.capacity() == 0,
            r.load() == 0,
    {
        Self::new()
    }
}

proof fn lemma_count_prefix<K, V>(slots: Seq<Slot<K, V>>, n: int)
    requires
        0 <= n <= slots.len(),
    ensures
        count_occupied(slots.take(n)) <= count_occupied(slots),
    decreases slots.len(),
{
    if n == slots.len() {
        assert(slots.take(n) =~= slots);
    } else {
        lemma_count_prefix(slots.drop_last(), n);
        assert(slots.drop_last().take(n) =~= slots.take(n));
    }
}

proof fn lemma_min_capacity_is_pow2()
    ensures
        is_pow2(MIN_CAPACITY as int),
{
    reveal_with_fuel(is_pow2, 4);
    assert(is_pow2(1));
    assert(is_pow2(2));
    assert(is_pow2(4));
}

proof fn lemma_double_is_pow2(n: int)
    requires
        is_pow2(n),
    ensures
        is_pow2(2 * n),
        n > 0,
{
    reveal_with_fuel(is_pow2, 2);
    assert((2 * n) / 2 == n);
}

/// The array has eight slots to begin with, and doubles when more than seven
/// tenths of its slots are in use; else it stays as long as it is.
pub proof fn growth_rule(capacity: nat, load: nat)
    ensures
        capacity == 0 ==> grown(capacity, load) == 8,
        capacity > 0 && 10 * load > 7 * capacity ==> grown(capacity, load) == 2 * capacity,
        capacity > 0 && 10 * load <= 7 * capacity ==> grown(capacity, load) == capacity,
{
}

/// An array that shrinks keeps room for its entries within the same limit: its
/// length is the least power of two, from eight on, of which the entries take
/// up at most seven tenths.
pub proof fn shrinking_rule<K: KernelHash, V>(before: KernelHashMap<K, V>, c: int)
    requires
        before.wf(),
    ensures
        forall|m: &mut KernelHashMap<K, V>|
            *m == before && #[trigger] call_ensures(KernelHashMap::<K, V>::shrink, (m,), ()) ==> {
                let n = before@.dom().len();
                &&& final(m)@ == before@
                &&& final(m).capacity() <= before.capacity()
                &&& final(m).capacity() < before.capacity() ==> final(m).capacity() >= 8 && 10 * n
                    <= 7 * final(m).capacity()
                &&& is_pow2(c) && c >= 8 && 10 * n <= 7 * c ==> final(m).capacity() <= c
                    || before.capacity() <= c
            },
{
    assert(fits(c, before@.dom().len()) == (is_pow2(c) && c >= 8 && 10 * before@.dom().len() <= 7
        * c));
}

/// A hash takes the bytes one by one: each is combined with the state, which is
/// then multiplied by 2^40 + 435.
pub proof fn hash_step(hash: u64, bytes: Seq<u8>, byte: u8)
    ensures
        fnv1a_from(hash, Seq::empty()) == hash,
        fnv1a_from(hash, bytes.push(byte)) == ((fnv1a_from(hash, bytes) ^ byte as u64)
            * 0x100_0000_01b3) % 0x1_0000_0000_0000_0000,
        fnv1a(bytes) == fnv1a_from(0xcbf29ce484222325, bytes),
{
    assert(bytes.push(byte).drop_last() =~= bytes);
}

/// Numbers are hashed by their bytes, least significant first, and texts by
/// theirs in UTF-8.
pub proof fn keys_are_hashed_by_bytes(a: u32, b: u64, c: Seq<char>)
    ensures
        <u32 as KernelHash>::hash_of(a) == fnv1a(le32(a)),
        <u64 as KernelHash>::hash_of(b) == fnv1a(le64(b)),
        <&'static str as KernelHash>::hash_of(c) == fnv1a(vstd::utf8::encode_utf8(c)),
{
}

} // verus!
