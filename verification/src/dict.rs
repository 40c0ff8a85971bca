//! The dictionary of the encoder: a lossy table from four-byte prefixes to
//! the last few positions at which they were seen, and the search for the
//! longest match among them.

use crate::compress::MAX_BLOCK_SIZE;
use crate::util::find_lsb_set64;
use crate::wire::{MAX_COPY_LEN, MIN_COPY_LEN};
use vstd::prelude::*;
use vstd::std_specs::bits::axiom_u64_trailing_zeros;

verus! {

/// How many positions the table keeps for one prefix. At least one.
pub const MAX_CHAIN_LEN: usize = 3;

/// A queue that keeps the last few positions at which a prefix was seen,
/// the newest first. It has a fixed capacity; a new position pushes the
/// oldest out.
#[derive(Copy, Clone)]
pub struct PositionQueue {
    queue: [u16; MAX_CHAIN_LEN],
    len: u8,
}

/// The queue `q` after `pos` has been pushed: `pos` in front, and the
/// oldest position gone if the queue was full.
pub open spec fn pushed(q: Seq<u16>, pos: u16) -> Seq<u16> {
    if q.len() < MAX_CHAIN_LEN {
        seq![pos] + q
    } else {
        seq![pos] + q.take(MAX_CHAIN_LEN - 1)
    }
}

impl View for PositionQueue {
    type V = Seq<u16>;

    /// The positions held, the newest first.
    closed spec fn view(&self) -> Seq<u16> {
        self.queue@.take(self.len as int)
    }
}

impl PositionQueue {
    /// The queue holds no more positions than it has room for.
    pub closed spec fn wf(&self) -> bool {
        self.len <= MAX_CHAIN_LEN
    }

    /// A queue that holds nothing.
    pub fn new() -> (q: PositionQueue)
        ensures
            q.wf(),
            q@ == Seq::<u16>::empty(),
    {
        let q = PositionQueue { queue: [0, 0, 0], len: 0 };
        assert(q@ =~= Seq::<u16>::empty());
        q
    }

    /// The positions held, the newest first.
    pub fn iter(&self) -> (r: &[u16])
        requires
            self.wf(),
        ensures
            r@ == self@,
            r@.len() <= MAX_CHAIN_LEN,
    {
        &self.queue[0..self.len as usize]
    }

    /// Puts `pos` in front; the oldest position leaves if the queue was
    /// full.
    pub fn push(&mut self, pos: u16)
        requires
            old(self).wf(),
        ensures
            final(self).wf(),
            final(self)@ == pushed(old(self)@, pos),
            final(self)@.len() <= MAX_CHAIN_LEN,
    {
        let mut k: usize = MAX_CHAIN_LEN - 1;
        while k > 0
            invariant
                k < MAX_CHAIN_LEN,
                self.len == old(self).len,
                forall|i: int| 0 <= i <= k ==> self.queue@[i] == old(self).queue@[i],
                forall|i: int| k < i < MAX_CHAIN_LEN ==> self.queue@[i] == old(self).queue@[i - 1],
            decreases k,
        {
            self.queue[k] = self.queue[k - 1];
            k -= 1;
        }
        self.queue[0] = pos;
        if (self.len as usize) < MAX_CHAIN_LEN {
            self.len += 1;
        }
        assert(self@ =~= pushed(old(self)@, pos));
    }

    /// How many positions the queue holds.
    pub fn len(&self) -> (n: usize)
        requires
            self.wf(),
        ensures
            n == self@.len(),
            n <= MAX_CHAIN_LEN,
    {
        self.len as usize
    }
}

/// The hash of a prefix before it is cut down to the table's size.
pub open spec fn mix(key: u32) -> u32 {
    let a = (key ^ 61) ^ (key >> 16);
    let b = a.wrapping_add(a << 3);
    let c = b ^ (b >> 4);
    let d = c.wrapping_mul(0x27d4eb2d);
    d ^ (d >> 15)
}

/// The slot of `key` in a table whose size is `mask + 1`.
pub open spec fn slot_index(key: u32, mask: u32) -> int {
    (mix(key) & mask) as int
}

/// The four bytes of `block` from `p` on, read as a little-endian integer.
pub open spec fn key_at(block: Seq<u8>, p: int) -> u32 {
    (block[p] as nat + block[p + 1] as nat * 0x100 + block[p + 2] as nat * 0x1_0000 + block[p
        + 3] as nat * 0x100_0000) as u32
}

/// What one slot of the table holds: the prefix stored last, and the
/// positions recorded for it, the newest first.
pub struct Slot {
    pub key: u32,
    pub positions: Seq<u16>,
}

/// A table of `n` slots that has never held anything.
pub open spec fn fresh_slots(n: nat) -> Seq<Slot> {
    Seq::new(n, |i: int| Slot { key: 0, positions: Seq::empty() })
}

/// The table `slots` with every position forgotten. The prefixes stay,
/// without meaning.
pub open spec fn cleared(slots: Seq<Slot>) -> Seq<Slot> {
    Seq::new(slots.len(), |i: int| Slot { key: slots[i].key, positions: Seq::empty() })
}

/// Whether `n` is the number of slots of a table made for `capacity`
/// prefixes: a power of two that is at least 16 and at least `capacity`, and
/// the smallest such; 16 where no such power fits in 32 bits.
pub open spec fn is_table_size(capacity: u32, n: nat) -> bool {
    &&& 16 <= n <= 0x8000_0000
    &&& (n as u32) & ((n - 1) as u32) == 0
    &&& capacity > 0x8000_0000 ==> n == 16
    &&& capacity <= 0x8000_0000 ==> n >= capacity && (n == 16 || n / 2 < capacity)
}

/// The number of slots of a table made for `capacity` prefixes.
pub open spec fn table_size(capacity: u32) -> nat {
    choose|n: nat| is_table_size(capacity, n)
}

/// A table from four-byte prefixes to the positions at which they were
/// seen. Its size is a power of two and never changes. A prefix whose slot
/// holds another prefix takes the slot over: the other is forgotten.
pub struct LossyHashTable {
    table: Vec<(u32, PositionQueue)>,
    /// The size of the table less one: the mask that cuts a hash down to a
    /// slot.
    range_mask: u32,
}

impl View for LossyHashTable {
    type V = Seq<Slot>;

    closed spec fn view(&self) -> Seq<Slot> {
        Seq::new(
            self.table@.len(),
            |i: int| Slot { key: self.table@[i].0, positions: self.table@[i].1@ },
        )
    }
}

/// Of two powers of two the smaller is at most half the larger.
proof fn lemma_powers_apart(p: u32, q: u32)
    requires
        1 <= p < q,
        p & ((p - 1) as u32) == 0,
        q & ((q - 1) as u32) == 0,
    ensures
        p <= q / 2,
{
    assert(p <= q / 2) by (bit_vector)
        requires
            1 <= p < q,
            p & ((p - 1) as u32) == 0,
            q & ((q - 1) as u32) == 0,
    ;
}

/// There is one table size for a capacity.
proof fn lemma_table_size(capacity: u32, size: u32)
    requires
        is_table_size(capacity, size as nat),
    ensures
        table_size(capacity) == size,
{
    let n = table_size(capacity);
    assert(is_table_size(capacity, n));
    if n < size {
        lemma_powers_apart(n as u32, size);
    } else if size < n {
        lemma_powers_apart(size, n as u32);
    }
}

impl LossyHashTable {
    /// The table has at least 16 slots, a power of two of them, and every
    /// queue in it is well-formed.
    pub closed spec fn wf(&self) -> bool {
        &&& 16 <= self.table@.len() <= 0x8000_0000
        &&& self.range_mask == self.table@.len() - 1
        &&& (self.table@.len() as u32) & self.range_mask == 0
        &&& forall|i: int| 0 <= i < self.table@.len() ==> (#[trigger] self.table@[i]).1.wf()
    }

    /// The size of a well-formed table is a power of two, and at least 16.
    pub proof fn lemma_size(&self)
        requires
            self.wf(),
        ensures
            16 <= self@.len() <= 0x8000_0000,
            (self@.len() as u32) & ((self@.len() - 1) as u32) == 0,
            forall|i: int| 0 <= i < self@.len() ==> (#[trigger] self@[i]).positions.len() <= MAX_CHAIN_LEN,
    {
        assert forall|i: int| 0 <= i < self@.len() implies (#[trigger] self@[i]).positions.len()
            <= MAX_CHAIN_LEN by {
            assert(self.table@[i].1.wf());
        }
    }

    /// A table with room for `capacity` prefixes: its size is the next
    /// power of two, and at least 16. Every slot is empty.
    pub fn new(capacity: u32) -> (t: LossyHashTable)
        ensures
            t.wf(),
            t@ == fresh_slots(table_size(capacity)),
            16 <= t@.len() <= 0x8000_0000,
            (t@.len() as u32) & ((t@.len() - 1) as u32) == 0,
            t@.len() >= capacity || capacity > 0x8000_0000,
    {
        let p = crate::util::next_power_of_2(capacity);
        let real_capacity: u32 = if p < 16 { 16 } else { p };
        proof {
            assert(real_capacity & ((real_capacity - 1) as u32) == 0 && real_capacity
                <= 0x8000_0000u32) by (bit_vector)
                requires
                    real_capacity >= 16,
                    real_capacity == 16 || real_capacity & ((real_capacity - 1) as u32) == 0,
            ;
            lemma_table_size(capacity, real_capacity);
        }
        let mut table: Vec<(u32, PositionQueue)> = Vec::new();
        while table.len() < real_capacity as usize
            invariant
                table@.len() <= real_capacity,
                forall|i: int|
                    0 <= i < table@.len() ==> (#[trigger] table@[i]).1.wf() && table@[i].1@.len()
                        == 0 && table@[i].0 == 0,
            decreases real_capacity - table@.len(),
        {
            table.push((0, PositionQueue::new()));
        }
        let t = LossyHashTable { table, range_mask: real_capacity - 1 };
        proof {
            assert forall|i: int| 0 <= i < t@.len() implies t@[i] == fresh_slots(
                real_capacity as nat,
            )[i] by {
                assert(t.table@[i].1@ =~= Seq::<u16>::empty());
            }
            assert(t@ =~= fresh_slots(real_capacity as nat));
        }
        t
    }

    /// Looks the prefix `key` up. Where its slot holds positions for this
    /// very prefix, returns their queue. Otherwise the slot is taken over:
    /// it now holds `key` and the one position `pos`.
    pub fn get_or_insert(&mut self, key: &[u8], pos: u16) -> (r: Option<&mut PositionQueue>)
        requires
            old(self).wf(),
            key@.len() == MIN_COPY_LEN,
        ensures
            ({
                let k = key_at(key@, 0);
                let i = slot_index(k, (old(self)@.len() - 1) as u32);
                let hit = old(self)@[i].positions.len() > 0 && old(self)@[i].key == k;
                &&& 0 <= i < old(self)@.len()
                &&& r is Some <==> hit
                &&& r is None ==> final(self).wf() && final(self)@ == old(self)@.update(
                    i,
                    Slot { key: k, positions: seq![pos] },
                )
                &&& r matches Some(q) ==> {
                    &&& q.wf()
                    &&& q@ == old(self)@[i].positions
                    &&& final(q).wf() ==> final(self).wf()
                    &&& final(self)@ == old(self)@.update(
                        i,
                        Slot { key: k, positions: final(q)@ },
                    )
                }
            }),
    {
        let k: u32 = key[0] as u32 + key[1] as u32 * 0x100 + key[2] as u32 * 0x1_0000 + key[3] as u32
            * 0x100_0000;
        let idx = self.hash(k);
        let ghost before = self@;
        if self.table[idx].1.len() != 0 && self.table[idx].0 == k {
            let q = &mut self.table[idx].1;
            proof {
                assert(before[idx as int].positions == q@);
            }
            Some(q)
        } else {
            self.table[idx] = (k, PositionQueue::new());
            self.table[idx].1.push(pos);
            assert(self@ =~= before.update(idx as int, Slot { key: k, positions: seq![pos] }));
            None
        }
    }

    /// Empties every slot. The size of the table stays.
    pub fn clear(&mut self)
        requires
            old(self).wf(),
        ensures
            final(self).wf(),
            final(self)@ == cleared(old(self)@),
    {
        let n = self.table.len();
        let mut i: usize = 0;
        while i < n
            invariant
                i <= n,
                n == self.table@.len(),
                self.table@.len() == old(self).table@.len(),
                self.range_mask == old(self).range_mask,
                self.wf(),
                forall|j: int| 0 <= j < n ==> (#[trigger] self.table@[j]).0 == old(self).table@[j].0,
                forall|j: int| 0 <= j < i ==> (#[trigger] self.table@[j]).1@.len() == 0,
            decreases n - i,
        {
            self.table[i].1.len = 0;
            i += 1;
        }
        proof {
            assert forall|i: int| 0 <= i < self@.len() implies self@[i] == cleared(old(self)@)[i] by {
                assert(self.table@[i].1@ =~= Seq::<u16>::empty());
            }
            assert(self@ =~= cleared(old(self)@));
        }
    }

    /// The number of slots.
    pub fn len(&self) -> (n: usize)
        ensures
            n == self@.len(),
    {
        self.table.len()
    }

    /// The slot of the prefix `key`.
    pub fn hash(&self, key: u32) -> (r: usize)
        requires
            self.wf(),
        ensures
            r == slot_index(key, (self@.len() - 1) as u32),
            r < self@.len(),
    {
        let mut a = (key ^ 61) ^ (key >> 16);
        a = a.wrapping_add(a << 3);
        a = a ^ (a >> 4);
        a = a.wrapping_mul(0x27d4eb2d);
        a = a ^ (a >> 15);
        let mask = self.range_mask;
        assert(a & mask <= mask) by (bit_vector);
        (a & self.range_mask) as usize
    }
}

/// How many bytes of `block` from `a` on equal the bytes from `b` on,
/// counted up to the first difference, the end of the block, or `limit`,
/// whichever comes first.
pub open spec fn common_prefix(block: Seq<u8>, a: int, b: int, limit: nat) -> nat
    decreases limit,
{
    if limit == 0 || a >= block.len() || b >= block.len() || block[a] != block[b] {
        0
    } else {
        1 + common_prefix(block, a + 1, b + 1, (limit - 1) as nat)
    }
}

/// Whether `block` holds the same byte `k` places after `a` and after `b`.
pub open spec fn agree(block: Seq<u8>, a: int, b: int, k: int) -> bool {
    block[a + k] == block[b + k]
}

/// A count of equal bytes that stops at a difference or at a bound is the
/// common prefix.
pub proof fn lemma_common_prefix_is(block: Seq<u8>, a: int, b: int, limit: nat, m: nat)
    requires
        0 <= a,
        0 <= b,
        m <= limit,
        a + m <= block.len(),
        b + m <= block.len(),
        forall|k: int| 0 <= k < m ==> #[trigger] agree(block, a, b, k),
        m == limit || a + m == block.len() || b + m == block.len() || block[a + m] != block[b + m],
    ensures
        common_prefix(block, a, b, limit) == m,
    decreases m,
{
    if m > 0 {
        assert(agree(block, a, b, 0));
        assert forall|k: int| 0 <= k < m - 1 implies #[trigger] agree(block, a + 1, b + 1, k) by {
            assert(agree(block, a, b, k + 1));
        }
        lemma_common_prefix_is(block, a + 1, b + 1, (limit - 1) as nat, (m - 1) as nat);
    }
}

/// The bytes that the common prefix counts are equal and lie in the block.
pub proof fn lemma_common_prefix_equal(block: Seq<u8>, a: int, b: int, limit: nat)
    requires
        0 <= a <= block.len(),
        0 <= b <= block.len(),
    ensures
        common_prefix(block, a, b, limit) <= limit,
        a + common_prefix(block, a, b, limit) <= block.len(),
        b + common_prefix(block, a, b, limit) <= block.len(),
        forall|k: int|
            0 <= k < common_prefix(block, a, b, limit) ==> #[trigger] agree(block, a, b, k),
    decreases limit,
{
    if !(limit == 0 || a >= block.len() || b >= block.len() || block[a] != block[b]) {
        lemma_common_prefix_equal(block, a + 1, b + 1, (limit - 1) as nat);
        let m = common_prefix(block, a, b, limit);
        assert forall|k: int| 0 <= k < m implies #[trigger] agree(block, a, b, k) by {
            if k > 0 {
                assert(agree(block, a + 1, b + 1, k - 1));
            }
        }
    }
}

/// The eight bytes `b0` to `b7` as one word, `b0` lowest.
pub open spec fn word_of(b0: u8, b1: u8, b2: u8, b3: u8, b4: u8, b5: u8, b6: u8, b7: u8) -> u64 {
    (b0 as u64) | (b1 as u64) << 8 | (b2 as u64) << 16 | (b3 as u64) << 24 | (b4 as u64) << 32 | (
    b5 as u64) << 40 | (b6 as u64) << 48 | (b7 as u64) << 56
}

/// The eight bytes of `block` from `i` on as one little-endian word.
pub open spec fn word_at(block: Seq<u8>, i: int) -> u64 {
    word_of(
        block[i],
        block[i + 1],
        block[i + 2],
        block[i + 3],
        block[i + 4],
        block[i + 5],
        block[i + 6],
        block[i + 7],
    )
}

/// Loads eight bytes as one little-endian word.
fn load64(block: &[u8], i: usize) -> (w: u64)
    requires
        i + 8 <= block@.len(),
    ensures
        w == word_at(block@, i as int),
{
    (block[i] as u64) | (block[i + 1] as u64) << 8 | (block[i + 2] as u64) << 16 | (block[i
        + 3] as u64) << 24 | (block[i + 4] as u64) << 32 | (block[i + 5] as u64) << 40 | (block[i
        + 6] as u64) << 48 | (block[i + 7] as u64) << 56
}

/// Equal words have equal bytes.
proof fn lemma_words_equal(
    b0: u8,
    b1: u8,
    b2: u8,
    b3: u8,
    b4: u8,
    b5: u8,
    b6: u8,
    b7: u8,
    c0: u8,
    c1: u8,
    c2: u8,
    c3: u8,
    c4: u8,
    c5: u8,
    c6: u8,
    c7: u8,
)
    by (bit_vector)
    requires
        word_of(b0, b1, b2, b3, b4, b5, b6, b7) == word_of(c0, c1, c2, c3, c4, c5, c6, c7),
    ensures
        b0 == c0 && b1 == c1 && b2 == c2 && b3 == c3 && b4 == c4 && b5 == c5 && b6 == c6 && b7
            == c7,
{
}

/// Where two words differ, the lowest set bit of their exclusive or lies in
/// the first byte at which they differ.
proof fn lemma_words_differ(
    b0: u8,
    b1: u8,
    b2: u8,
    b3: u8,
    b4: u8,
    b5: u8,
    b6: u8,
    b7: u8,
    c0: u8,
    c1: u8,
    c2: u8,
    c3: u8,
    c4: u8,
    c5: u8,
    c6: u8,
    c7: u8,
    r: u32,
    up: u64,
)
    by (bit_vector)
    requires
        r < 64,
        up == 64 - r,
        ((word_of(b0, b1, b2, b3, b4, b5, b6, b7) ^ word_of(c0, c1, c2, c3, c4, c5, c6, c7)) >> r)
            & 1 == 1,
        (word_of(b0, b1, b2, b3, b4, b5, b6, b7) ^ word_of(c0, c1, c2, c3, c4, c5, c6, c7)) << up
            == 0,
    ensures
        r / 8 == 0 ==> b0 != c0,
        r / 8 == 1 ==> b0 == c0 && b1 != c1,
        r / 8 == 2 ==> b0 == c0 && b1 == c1 && b2 != c2,
        r / 8 == 3 ==> b0 == c0 && b1 == c1 && b2 == c2 && b3 != c3,
        r / 8 == 4 ==> b0 == c0 && b1 == c1 && b2 == c2 && b3 == c3 && b4 != c4,
        r / 8 == 5 ==> b0 == c0 && b1 == c1 && b2 == c2 && b3 == c3 && b4 == c4 && b5 != c5,
        r / 8 == 6 ==> b0 == c0 && b1 == c1 && b2 == c2 && b3 == c3 && b4 == c4 && b5 == c5 && b6
            != c6,
        r / 8 == 7 ==> b0 == c0 && b1 == c1 && b2 == c2 && b3 == c3 && b4 == c4 && b5 == c5 && b6
            == c6 && b7 != c7,
{
}

/// Counts the equal bytes of `block` from `s1` and from `s2` on, up to
/// `limit`. Compares eight bytes at a time while eight are left: where two
/// words differ, the lowest set bit of their exclusive or tells the byte.
fn find_match_length(block: &[u8], s1: usize, s2: usize, limit: usize) -> (matched: usize)
    requires
        s1 + limit <= block@.len(),
        s2 + limit <= block@.len(),
    ensures
        matched <= limit,
        forall|k: int| 0 <= k < matched ==> #[trigger] agree(block@, s1 as int, s2 as int, k),
        matched < limit ==> !agree(block@, s1 as int, s2 as int, matched as int),
{
    let mut matched: usize = 0;
    let ghost total = block.len();
    while limit - matched >= 8
        invariant
            total == block@.len(),
            matched <= limit,
            s1 + limit <= block@.len(),
            s2 + limit <= block@.len(),
            forall|k: int| 0 <= k < matched ==> #[trigger] agree(block@, s1 as int, s2 as int, k),
        decreases limit - matched,
    {
        let w1 = load64(block, s1 + matched);
        let w2 = load64(block, s2 + matched);
        let ghost p = s1 + matched;
        let ghost q = s2 + matched;
        let ghost b = block@;
        if w1 == w2 {
            proof {
                lemma_words_equal(
                    b[p],
                    b[p + 1],
                    b[p + 2],
                    b[p + 3],
                    b[p + 4],
                    b[p + 5],
                    b[p + 6],
                    b[p + 7],
                    b[q],
                    b[q + 1],
                    b[q + 2],
                    b[q + 3],
                    b[q + 4],
                    b[q + 5],
                    b[q + 6],
                    b[q + 7],
                );
                assert forall|k: int| 0 <= k < matched + 8 implies #[trigger] agree(
                    b,
                    s1 as int,
                    s2 as int,
                    k,
                ) by {
                    if k >= matched {
                        let d = k - matched;
                        assert(b[p + d] == b[q + d]);
                    }
                }
            }
            matched += 8;
        } else {
            let x = w1 ^ w2;
            assert(x != 0) by (bit_vector)
                requires
                    x == w1 ^ w2,
                    w1 != w2,
            ;
            let bits = find_lsb_set64(x);
            let extra = (bits / 8) as usize;
            proof {
                axiom_u64_trailing_zeros(x);
                lemma_words_differ(
                    b[p],
                    b[p + 1],
                    b[p + 2],
                    b[p + 3],
                    b[p + 4],
                    b[p + 5],
                    b[p + 6],
                    b[p + 7],
                    b[q],
                    b[q + 1],
                    b[q + 2],
                    b[q + 3],
                    b[q + 4],
                    b[q + 5],
                    b[q + 6],
                    b[q + 7],
                    bits,
                    (64 - bits) as u64,
                );
                assert forall|k: int| 0 <= k < matched + extra implies #[trigger] agree(
                    b,
                    s1 as int,
                    s2 as int,
                    k,
                ) by {
                    if k >= matched {
                        let d = k - matched;
                        assert(b[p + d] == b[q + d]);
                    }
                }
                assert(b[p + extra] != b[q + extra]);
            }
            return matched + extra;
        }
    }
    while matched < limit
        invariant
            total == block@.len(),
            matched <= limit,
            s1 + limit <= block@.len(),
            s2 + limit <= block@.len(),
            forall|k: int| 0 <= k < matched ==> #[trigger] agree(block@, s1 as int, s2 as int, k),
        decreases limit - matched,
    {
        if block[s1 + matched] == block[s2 + matched] {
            matched += 1;
        } else {
            return matched;
        }
    }
    matched
}

/// The length of the common prefix of `block` from `a` on and from `b` on,
/// at most 64.
pub fn common_prefix_length(block: &[u8], a: u16, b: u16) -> (r: u16)
    requires
        a <= block@.len(),
        b <= block@.len(),
    ensures
        r == common_prefix(block@, a as int, b as int, MAX_COPY_LEN as nat),
        r <= MAX_COPY_LEN,
{
    let far = if a < b { b } else { a };
    let room = block.len() - far as usize;
    let limit = if room < MAX_COPY_LEN as usize { room } else { MAX_COPY_LEN as usize };
    let matched = find_match_length(block, a as usize, b as usize, limit);
    proof {
        lemma_common_prefix_is(block@, a as int, b as int, MAX_COPY_LEN as nat, matched as nat);
    }
    matched as u16
}

/// The length of the match between `pos` and `start`, whose first four
/// bytes are known to be equal.
pub open spec fn match_len(block: Seq<u8>, pos: int, start: int) -> nat {
    MIN_COPY_LEN as nat + common_prefix(
        block,
        pos + MIN_COPY_LEN,
        start + MIN_COPY_LEN,
        MAX_COPY_LEN as nat,
    )
}

/// The best match for `start` among the first `n` positions of `q`: the
/// first position whose match is longer than those before it. The search
/// stops at a match of 64 bytes or more.
pub open spec fn best_match(block: Seq<u8>, q: Seq<u16>, start: int, n: nat) -> (u16, u16)
    decreases n,
{
    if n <= 1 {
        (q[0], match_len(block, q[0] as int, start) as u16)
    } else {
        let prev = best_match(block, q, start, (n - 1) as nat);
        let len = match_len(block, q[n - 1] as int, start);
        if prev.1 >= MAX_COPY_LEN || len <= prev.1 {
            prev
        } else {
            (q[n - 1], len as u16)
        }
    }
}

/// What a search for the prefix at `start` finds in `slots`: nothing where
/// the slot of the prefix is empty or holds another prefix, else the best
/// match among the positions of the slot, as a position and a length.
pub open spec fn lookup(slots: Seq<Slot>, block: Seq<u8>, start: int) -> Option<(u16, u16)> {
    let k = key_at(block, start);
    let slot = slots[slot_index(k, (slots.len() - 1) as u32)];
    if slot.positions.len() > 0 && slot.key == k {
        Some(best_match(block, slot.positions, start, slot.positions.len()))
    } else {
        None
    }
}

/// The table after a search for the prefix at `start`: the slot of the
/// prefix holds it, with `start` pushed onto its positions, or with `start`
/// alone where the slot was empty or held another prefix.
pub open spec fn recorded(slots: Seq<Slot>, block: Seq<u8>, start: int) -> Seq<Slot> {
    let k = key_at(block, start);
    let i = slot_index(k, (slots.len() - 1) as u32);
    let slot = slots[i];
    if slot.positions.len() > 0 && slot.key == k {
        slots.update(i, Slot { key: k, positions: pushed(slot.positions, start as u16) })
    } else {
        slots.update(i, Slot { key: k, positions: seq![start as u16] })
    }
}

/// Whether every position in `slots` lies before `upto`, has four bytes in
/// `block`, and those bytes spell the prefix of its slot.
pub open spec fn slots_fit(slots: Seq<Slot>, block: Seq<u8>, upto: int) -> bool {
    forall|i: int, j: int|
        0 <= i < slots.len() && 0 <= j < slots[i].positions.len() ==> {
            let p = #[trigger] slots[i].positions[j];
            p < upto && p + MIN_COPY_LEN <= block.len() && key_at(block, p as int) == slots[i].key
        }
}

/// A number has one lowest byte and one rest.
proof fn lemma_one_low_byte(lo: nat, hi: nat, lo2: nat, hi2: nat)
    requires
        lo < 256,
        lo2 < 256,
        lo + 256 * hi == lo2 + 256 * hi2,
    ensures
        lo == lo2,
        hi == hi2,
{
}

/// Equal prefixes are four equal bytes.
pub proof fn lemma_key_bytes(block: Seq<u8>, p: int, s: int)
    requires
        0 <= p,
        0 <= s,
        p + 4 <= block.len(),
        s + 4 <= block.len(),
        key_at(block, p) == key_at(block, s),
    ensures
        forall|k: int| 0 <= k < 4 ==> #[trigger] agree(block, p, s, k),
{
    let a0 = block[p] as nat;
    let a1 = block[p + 1] as nat;
    let a2 = block[p + 2] as nat;
    let a3 = block[p + 3] as nat;
    let b0 = block[s] as nat;
    let b1 = block[s + 1] as nat;
    let b2 = block[s + 2] as nat;
    let b3 = block[s + 3] as nat;
    assert(a0 + a1 * 0x100 + a2 * 0x1_0000 + a3 * 0x100_0000 == b0 + b1 * 0x100 + b2 * 0x1_0000
        + b3 * 0x100_0000);
    lemma_one_low_byte(a0, a1 + 256 * (a2 + 256 * a3), b0, b1 + 256 * (b2 + 256 * b3));
    lemma_one_low_byte(a1, a2 + 256 * a3, b1, b2 + 256 * b3);
    lemma_one_low_byte(a2, a3, b2, b3);
    assert(agree(block, p, s, 0));
    assert(agree(block, p, s, 1));
    assert(agree(block, p, s, 2));
    assert(agree(block, p, s, 3));
}

/// Once the search has a match of 64 bytes or more, further positions do
/// not change it.
pub proof fn lemma_best_match_stops(block: Seq<u8>, q: Seq<u16>, start: int, j: nat, n: nat)
    requires
        1 <= j <= n,
        best_match(block, q, start, j).1 >= MAX_COPY_LEN,
    ensures
        best_match(block, q, start, n) == best_match(block, q, start, j),
    decreases n,
{
    if n > j {
        lemma_best_match_stops(block, q, start, j, (n - 1) as nat);
    }
}

/// The dictionary of one compression: the lossy table of the prefixes of
/// the current block.
pub struct Dict {
    table: LossyHashTable,
}

impl View for Dict {
    type V = Seq<Slot>;

    closed spec fn view(&self) -> Seq<Slot> {
        self.table@
    }
}

impl Dict {
    /// The table is well-formed.
    pub closed spec fn wf(&self) -> bool {
        self.table.wf()
    }

    /// Whether no slot holds a position.
    pub open spec fn is_clear(&self) -> bool {
        forall|i: int| 0 <= i < self@.len() ==> (#[trigger] self@[i]).positions.len() == 0
    }

    /// The size of a well-formed dictionary is a power of two, and at
    /// least 16.
    pub proof fn lemma_size(&self)
        requires
            self.wf(),
        ensures
            16 <= self@.len() <= 0x8000_0000,
            (self@.len() as u32) & ((self@.len() - 1) as u32) == 0,
            forall|i: int| 0 <= i < self@.len() ==> (#[trigger] self@[i]).positions.len() <= MAX_CHAIN_LEN,
    {
        self.table.lemma_size();
    }

    /// A clear dictionary with room for `capacity` prefixes: its size is
    /// the next power of two, and at least 16.
    pub fn new(capacity: u32) -> (d: Dict)
        ensures
            d.wf(),
            d.is_clear(),
            d@ == fresh_slots(table_size(capacity)),
            16 <= d@.len() <= 0x8000_0000,
            (d@.len() as u32) & ((d@.len() - 1) as u32) == 0,
            d@.len() >= capacity || capacity > 0x8000_0000,
    {
        let d = Dict { table: LossyHashTable::new(capacity) };
        proof {
            d.lemma_size();
        }
        d
    }

    /// The number of slots.
    pub fn len(&self) -> (n: usize)
        ensures
            n == self@.len(),
    {
        self.table.len()
    }

    /// Forgets every position. The size stays.
    pub fn clear(&mut self)
        requires
            old(self).wf(),
        ensures
            final(self).wf(),
            final(self).is_clear(),
            final(self)@ == cleared(old(self)@),
    {
        self.table.clear();
    }

    /// Looks for the best match for the four bytes at `start` among the
    /// positions recorded for them, and records `start`. Returns the
    /// position and the length of the match.
    pub fn find_best_match_or_add(&mut self, block: &[u8], start: usize) -> (r: Option<(u16, u16)>)
        requires
            old(self).wf(),
            slots_fit(old(self)@, block@, start as int),
            start + MIN_COPY_LEN <= block@.len() <= MAX_BLOCK_SIZE,
        ensures
            final(self).wf(),
            final(self)@.len() == old(self)@.len(),
            r == lookup(old(self)@, block@, start as int),
            final(self)@ == recorded(old(self)@, block@, start as int),
            slots_fit(final(self)@, block@, start + 1),
            r matches Some((pos, len)) ==> {
                &&& pos < start
                &&& MIN_COPY_LEN <= len <= MAX_COPY_LEN + MIN_COPY_LEN
                &&& start + len <= block@.len()
                &&& forall|k: int| 0 <= k < len ==> #[trigger] agree(block@, pos as int, start as int, k)
            },
    {
        let prefix = &block[start..start + MIN_COPY_LEN as usize];
        let ghost before = self@;
        let ghost key = key_at(block@, start as int);
        let ghost slot = slot_index(key, (before.len() - 1) as u32);
        assert(key_at(prefix@, 0) == key);
        let positions = match self.table.get_or_insert(prefix, start as u16) {
            None => {
                assert(slots_fit(self@, block@, start + 1));
                return None;
            },
            Some(ps) => ps,
        };
        let q: PositionQueue = *positions;
        let held = q.iter();
        let n = held.len();
        proof {
            assert(held@ == before[slot].positions);
            assert forall|j: int| 0 <= j < n implies {
                let p = #[trigger] held@[j];
                p < start && p + MIN_COPY_LEN <= block@.len() && key_at(block@, p as int) == key
            } by {
                let p = before[slot].positions[j];
            }
        }
        // The first four bytes are equal where the prefixes are: the search
        // starts behind them.
        let search_start = start as u16 + MIN_COPY_LEN;
        let mut best_pos = held[0];
        let mut best_len = MIN_COPY_LEN + common_prefix_length(
            block,
            best_pos + MIN_COPY_LEN,
            search_start,
        );
        let mut j: usize = 1;
        while j < n && best_len < MAX_COPY_LEN
            invariant
                1 <= j <= n,
                n == held@.len(),
                search_start == start + MIN_COPY_LEN,
                start + MIN_COPY_LEN <= block@.len() <= MAX_BLOCK_SIZE,
                forall|j: int|
                    0 <= j < n ==> {
                        let p = #[trigger] held@[j];
                        p < start && p + MIN_COPY_LEN <= block@.len()
                    },
                (best_pos, best_len) == best_match(block@, held@, start as int, j as nat),
                exists|i: int| 0 <= i < n && held@[i] == best_pos,
                best_len == match_len(block@, best_pos as int, start as int),
            decreases n - j,
        {
            let pos = held[j];
            let len = MIN_COPY_LEN + common_prefix_length(block, pos + MIN_COPY_LEN, search_start);
            if len > best_len {
                best_pos = pos;
                best_len = len;
            }
            j += 1;
        }
        proof {
            if j < n {
                lemma_best_match_stops(block@, held@, start as int, j as nat, n as nat);
            }
            let i = choose|i: int| 0 <= i < n && held@[i] == best_pos;
            let p = held@[i];
            assert(key_at(block@, p as int) == key);
            lemma_key_bytes(block@, best_pos as int, start as int);
            lemma_common_prefix_equal(
                block@,
                best_pos + MIN_COPY_LEN,
                start + MIN_COPY_LEN,
                MAX_COPY_LEN as nat,
            );
            assert forall|k: int| 0 <= k < best_len implies #[trigger] agree(
                block@,
                best_pos as int,
                start as int,
                k,
            ) by {
                if k >= 4 {
                    assert(agree(block@, best_pos + MIN_COPY_LEN, start + MIN_COPY_LEN, k - 4));
                }
            }
        }
        positions.push(start as u16);
        proof {
            assert(self@ == before.update(
                slot,
                Slot { key, positions: pushed(before[slot].positions, start as u16) },
            ));
            assert forall|i: int, j: int|
                0 <= i < self@.len() && 0 <= j < self@[i].positions.len() implies {
                let p = #[trigger] self@[i].positions[j];
                p < start + 1 && p + MIN_COPY_LEN <= block@.len() && key_at(block@, p as int)
                    == self@[i].key
            } by {
                if i == slot {
                    if j > 0 {
                        let p = before[slot].positions[j - 1];
                    }
                } else {
                    let p = before[i].positions[j];
                }
            }
        }
        Some((best_pos, best_len))
    }
}

} // verus!
