//! In-memory copies of blocks and the bounded table that shares them.
use vstd::prelude::*;
use vstd::bytes::{
    lemma_auto_spec_u64_to_from_le_bytes, spec_u64_from_le_bytes, spec_u64_to_le_bytes,
    u64_from_le_bytes, u64_to_le_bytes,
};

use crate::block_dev::{blocks_wf, BlockDevice};
use crate::BLOCK_SZ;

verus! {

/// The little-endian word stored at bytes `off .. off + 8` of `data`.
pub open spec fn get_u64(data: Seq<u8>, off: int) -> u64 {
    spec_u64_from_le_bytes(data.subrange(off, off + 8))
}

/// `data` with bytes `off .. off + 8` replaced by the little-endian encoding of `v`.
pub open spec fn put_u64(data: Seq<u8>, off: int, v: u64) -> Seq<u8> {
    data.subrange(0, off) + spec_u64_to_le_bytes(v) + data.subrange(off + 8, data.len() as int)
}

/// Reading a word back gives what was written; words that do not overlap it keep their value.
pub proof fn lemma_put_get_u64(data: Seq<u8>, off: int, v: u64, off2: int)
    requires
        0 <= off,
        off + 8 <= data.len(),
        0 <= off2,
        off2 + 8 <= data.len(),
    ensures
        put_u64(data, off, v).len() == data.len(),
        get_u64(put_u64(data, off, v), off) == v,
        (off2 + 8 <= off || off + 8 <= off2) ==> get_u64(put_u64(data, off, v), off2) == get_u64(data, off2),
{
    lemma_auto_spec_u64_to_from_le_bytes();
    let d2 = put_u64(data, off, v);
    assert(d2.subrange(off, off + 8) =~= spec_u64_to_le_bytes(v));
    if off2 + 8 <= off || off + 8 <= off2 {
        assert(d2.subrange(off2, off2 + 8) =~= data.subrange(off2, off2 + 8));
    }
}

/// What a cache entry holds.
pub struct CacheView {
    pub block_id: nat,
    pub data: Seq<u8>,
    pub modified: bool,
}

/// The in-memory copy of one block of the medium.
pub struct BlockCache {
    cache: Vec<u8>,
    block_id: usize,
    modified: bool,
}

impl View for BlockCache {
    type V = CacheView;

    closed spec fn view(&self) -> CacheView {
        CacheView { block_id: self.block_id as nat, data: self.cache@, modified: self.modified }
    }
}

impl BlockCache {
    /// Loads block `block_id` from the medium; the copy starts clean.
    pub fn new<D: BlockDevice>(block_id: usize, block_device: &D) -> (r: Self)
        requires
            block_id < block_device.blocks().len(),
            blocks_wf(block_device.blocks()),
        ensures
            r@ == (CacheView {
                block_id: block_id as nat,
                data: block_device.blocks()[block_id as int],
                modified: false,
            }),
    {
        let mut cache = crate::block_dev::zeroed_block();
        block_device.read_block(block_id, cache.as_mut_slice());
        BlockCache { cache, block_id, modified: false }
    }

    /// Id of the block this entry mirrors.
    pub fn block_id(&self) -> (r: usize)
        ensures
            r == self@.block_id,
    {
        self.block_id
    }

    /// Whether the entry differs from the medium.
    pub fn is_modified(&self) -> (r: bool)
        ensures
            r == self@.modified,
    {
        self.modified
    }

    /// Read-only view of the whole block.
    pub fn get_ref(&self) -> (r: &[u8])
        ensures
            r@ == self@.data,
    {
        self.cache.as_slice()
    }

    /// The little-endian word at `offset`.
    pub fn read_u64(&self, offset: usize) -> (r: u64)
        requires
            offset + 8 <= self@.data.len(),
        ensures
            r == get_u64(self@.data, offset as int),
    {
        let mut word: Vec<u8> = Vec::new();
        let n = self.cache.len();
        let mut k: usize = 0;
        while k < 8
            invariant
                k <= 8,
                n == self.cache@.len(),
                offset + 8 <= self.cache@.len(),
                word@ == self.cache@.subrange(offset as int, offset + k),
            decreases 8 - k,
        {
            word.push(self.cache[offset + k]);
            k = k + 1;
            assert(word@ =~= self.cache@.subrange(offset as int, offset + k));
        }
        u64_from_le_bytes(word.as_slice())
    }

    /// Stores `value` little-endian at `offset` and marks the entry modified.
    pub fn write_u64(&mut self, offset: usize, value: u64)
        requires
            offset + 8 <= old(self)@.data.len(),
        ensures
            final(self)@ == (CacheView {
                data: put_u64(old(self)@.data, offset as int, value),
                modified: true,
                ..old(self)@
            }),
    {
        let bytes = u64_to_le_bytes(value);
        self.modified = true;
        let n = self.cache.len();
        let mut k: usize = 0;
        while k < 8
            invariant
                k <= 8,
                n == self.cache@.len(),
                bytes@ == spec_u64_to_le_bytes(value),
                bytes@.len() == 8,
                offset + 8 <= self.cache@.len(),
                self.cache@.len() == old(self).cache@.len(),
                self.block_id == old(self).block_id,
                self.modified,
                forall|i: int|
                    0 <= i < self.cache@.len() ==> #[trigger] self.cache@[i] == if offset <= i
                        < offset + k {
                        bytes@[i - offset]
                    } else {
                        old(self).cache@[i]
                    },
            decreases 8 - k,
        {
            self.cache.set(offset + k, bytes[k]);
            k = k + 1;
        }
        assert(self.cache@ =~= put_u64(old(self).cache@, offset as int, value));
    }

    /// Writes the entry back to the medium if it is modified, then marks it clean.
    pub fn sync<D: BlockDevice>(&mut self, block_device: &mut D)
        requires
            old(self)@.block_id < old(block_device).blocks().len(),
            old(self)@.data.len() == BLOCK_SZ,
        ensures
            final(self)@ == (CacheView { modified: false, ..old(self)@ }),
            final(block_device).blocks() == if old(self)@.modified {
                old(block_device).blocks().update(old(self)@.block_id as int, old(self)@.data)
            } else {
                old(block_device).blocks()
            },
    {
        if self.modified {
            self.modified = false;
            block_device.write_block(self.block_id, self.cache.as_slice());
        }
    }
}

/// Most entries the table holds at once.
pub const BLOCK_CACHE_SIZE: usize = 16;

/// What one slot of the table holds: an entry and the number of its outside holders.
pub struct SlotView {
    pub block_id: nat,
    pub data: Seq<u8>,
    pub modified: bool,
    pub holders: nat,
}

struct Slot {
    cache: BlockCache,
    holders: usize,
}

spec fn slot_view(s: Slot) -> SlotView {
    SlotView {
        block_id: s.cache@.block_id,
        data: s.cache@.data,
        modified: s.cache@.modified,
        holders: s.holders as nat,
    }
}

/// The bounded table of cache entries, in order of insertion.
pub struct BlockCacheManager {
    queue: Vec<Slot>,
}

impl View for BlockCacheManager {
    type V = Seq<SlotView>;

    closed spec fn view(&self) -> Seq<SlotView> {
        self.queue@.map_values(|s: Slot| slot_view(s))
    }
}

/// The table is within capacity, each entry is a whole block and no block has two entries.
pub open spec fn table_wf(m: Seq<SlotView>) -> bool {
    &&& m.len() <= BLOCK_CACHE_SIZE
    &&& forall|j: int| 0 <= j < m.len() ==> (#[trigger] m[j]).data.len() == BLOCK_SZ
    &&& forall|j: int, k: int|
        0 <= j < m.len() && 0 <= k < m.len() && j != k ==> (#[trigger] m[j]).block_id != (
        #[trigger] m[k]).block_id
}

/// The table fits the medium: every entry names a block of it, and an entry that is not
/// modified holds what the medium holds.
pub open spec fn coherent(m: Seq<SlotView>, disk: Seq<Seq<u8>>) -> bool {
    &&& blocks_wf(disk)
    &&& forall|j: int| 0 <= j < m.len() ==> (#[trigger] m[j]).block_id < disk.len()
    &&& forall|j: int|
        0 <= j < m.len() && !(#[trigger] m[j]).modified ==> m[j].data == disk[m[j].block_id as int]
}

/// Block `id` has an entry in the table.
pub open spec fn resident(m: Seq<SlotView>, id: int) -> bool {
    exists|j: int| 0 <= j < m.len() && (#[trigger] m[j]).block_id == id
}

/// The slot of block `id`, where it is resident.
pub open spec fn slot_of(m: Seq<SlotView>, id: int) -> int {
    choose|j: int| 0 <= j < m.len() && (#[trigger] m[j]).block_id == id
}

/// The contents that a reader of the cache sees: the entry where there is one, the medium elsewhere.
pub open spec fn logical(m: Seq<SlotView>, disk: Seq<Seq<u8>>) -> Seq<Seq<u8>> {
    Seq::new(
        disk.len(),
        |i: int|
            if resident(m, i) {
                m[slot_of(m, i)].data
            } else {
                disk[i]
            },
    )
}

/// How many outside holders block `id` has.
pub open spec fn holders_of(m: Seq<SlotView>, id: int) -> nat {
    if resident(m, id) {
        m[slot_of(m, id)].holders
    } else {
        0
    }
}

/// A new entry can be made: the table has a free place, or an entry that nobody holds.
pub open spec fn has_room(m: Seq<SlotView>) -> bool {
    m.len() < BLOCK_CACHE_SIZE || exists|i: int| resident(m, i) && #[trigger] holders_of(m, i) == 0
}

/// Block `id` can be acquired without running out of entries.
pub open spec fn can_acquire(m: Seq<SlotView>, id: int) -> bool {
    resident(m, id) || has_room(m)
}

/// In a well-formed table the slot of a block is the one that names it.
pub proof fn lemma_slot_of(m: Seq<SlotView>, j: int)
    requires
        table_wf(m),
        0 <= j < m.len(),
    ensures
        resident(m, m[j].block_id as int),
        slot_of(m, m[j].block_id as int) == j,
{
    let id = m[j].block_id as int;
    assert(resident(m, id));
    let k = slot_of(m, id);
    assert(m[k].block_id == id);
}

/// Replacing one slot by another for the same block keeps the table well formed and changes
/// what readers see in that block alone.
pub proof fn lemma_update_slot(m: Seq<SlotView>, disk: Seq<Seq<u8>>, j: int, s: SlotView)
    requires
        table_wf(m),
        0 <= j < m.len(),
        s.block_id == m[j].block_id,
        s.data.len() == BLOCK_SZ,
    ensures
        table_wf(m.update(j, s)),
        forall|i: int| #[trigger] resident(m.update(j, s), i) == resident(m, i),
        forall|i: int|
            #[trigger] holders_of(m.update(j, s), i) == if i == s.block_id {
                s.holders
            } else {
                holders_of(m, i)
            },
        slot_of(m, s.block_id as int) == j,
        coherent(m, disk) && (s.modified || s.data == disk[s.block_id as int]) ==> coherent(
            m.update(j, s),
            disk,
        ),
        s.block_id < disk.len() ==> logical(m.update(j, s), disk) == logical(m, disk).update(
            s.block_id as int,
            s.data,
        ),
{
    let m2 = m.update(j, s);
    assert(table_wf(m2)) by {
        assert forall|a: int, b: int|
            0 <= a < m2.len() && 0 <= b < m2.len() && a != b implies (#[trigger] m2[a]).block_id
            != (#[trigger] m2[b]).block_id by {
            assert(m[a].block_id != m[b].block_id);
        }
    }
    lemma_slot_of(m, j);
    assert forall|i: int| #[trigger] resident(m2, i) == resident(m, i) by {
        if resident(m, i) {
            let k = choose|k: int| 0 <= k < m.len() && (#[trigger] m[k]).block_id == i;
            assert(m2[k].block_id == i);
        }
        if resident(m2, i) {
            let k = choose|k: int| 0 <= k < m2.len() && (#[trigger] m2[k]).block_id == i;
            assert(m[k].block_id == i);
        }
    }
    assert forall|i: int| resident(m, i) implies slot_of(m2, i) == slot_of(m, i) by {
        let k = slot_of(m, i);
        lemma_slot_of(m, k);
        lemma_slot_of(m2, k);
    }
    assert forall|i: int|
        #[trigger] holders_of(m2, i) == if i == s.block_id {
            s.holders
        } else {
            holders_of(m, i)
        } by {
        if resident(m, i) {
            let k = slot_of(m, i);
            lemma_slot_of(m, k);
        }
    }
    if s.block_id < disk.len() {
        assert(logical(m2, disk) =~= logical(m, disk).update(s.block_id as int, s.data)) by {
            assert forall|i: int| 0 <= i < disk.len() && resident(m, i) implies (#[trigger] m2[slot_of(
                m2,
                i,
            )]).data == if i == s.block_id {
                s.data
            } else {
                m[slot_of(m, i)].data
            } by {
                let k = slot_of(m, i);
                lemma_slot_of(m, k);
            }
        }
    }
}

/// Taking out a slot that is written back first leaves readers' view unchanged.
pub proof fn lemma_evict(m: Seq<SlotView>, disk: Seq<Seq<u8>>, j: int, disk2: Seq<Seq<u8>>)
    requires
        table_wf(m),
        coherent(m, disk),
        0 <= j < m.len(),
        disk2 == (if m[j].modified {
            disk.update(m[j].block_id as int, m[j].data)
        } else {
            disk
        }),
    ensures
        table_wf(m.remove(j)),
        coherent(m.remove(j), disk2),
        logical(m.remove(j), disk2) == logical(m, disk),
        !resident(m.remove(j), m[j].block_id as int),
        forall|i: int| i != m[j].block_id ==> #[trigger] resident(m.remove(j), i) == resident(m, i),
        forall|i: int|
            i != m[j].block_id ==> #[trigger] holders_of(m.remove(j), i) == holders_of(m, i),
{
    let m2 = m.remove(j);
    let id = m[j].block_id as int;
    assert forall|k: int| 0 <= k < m2.len() implies #[trigger] m2[k] == if k < j {
        m[k]
    } else {
        m[k + 1]
    } by {}
    assert(table_wf(m2)) by {
        assert forall|a: int, b: int|
            0 <= a < m2.len() && 0 <= b < m2.len() && a != b implies (#[trigger] m2[a]).block_id
            != (#[trigger] m2[b]).block_id by {
            let a1 = if a < j {
                a
            } else {
                a + 1
            };
            let b1 = if b < j {
                b
            } else {
                b + 1
            };
            assert(m[a1].block_id != m[b1].block_id);
        }
        assert forall|k: int| 0 <= k < m2.len() implies (#[trigger] m2[k]).data.len() == BLOCK_SZ by {
            let k1 = if k < j {
                k
            } else {
                k + 1
            };
            assert(m[k1].data.len() == BLOCK_SZ);
        }
    }
    // a slot of the smaller table and its place in the larger one name the same block
    assert forall|k: int| 0 <= k < m2.len() implies #[trigger] m2[k].block_id != id && slot_of(
        m,
        m2[k].block_id as int,
    ) == (if k < j {
        k
    } else {
        k + 1
    }) && slot_of(m2, m2[k].block_id as int) == k by {
        let k1 = if k < j {
            k
        } else {
            k + 1
        };
        assert(m[k1] == m2[k]);
        lemma_slot_of(m, k1);
        lemma_slot_of(m2, k);
    }
    assert forall|i: int| i != id implies #[trigger] resident(m2, i) == resident(m, i) by {
        if resident(m, i) {
            let k = choose|k: int| 0 <= k < m.len() && (#[trigger] m[k]).block_id == i;
            let k2 = if k < j {
                k
            } else {
                k - 1
            };
            assert(m2[k2].block_id == i);
        }
        if resident(m2, i) {
            let k = choose|k: int| 0 <= k < m2.len() && (#[trigger] m2[k]).block_id == i;
        }
    }
    assert(!resident(m2, id)) by {
        if resident(m2, id) {
            let k = choose|k: int| 0 <= k < m2.len() && (#[trigger] m2[k]).block_id == id;
        }
    }
    assert forall|i: int| i != id implies #[trigger] holders_of(m2, i) == holders_of(m, i) by {
        if resident(m2, i) {
            let k = slot_of(m2, i);
            lemma_slot_of(m2, k);
        }
    }
    lemma_slot_of(m, j);
    assert(logical(m2, disk2) =~= logical(m, disk)) by {
        assert forall|i: int| 0 <= i < disk.len() implies #[trigger] logical(m2, disk2)[i] == logical(
            m,
            disk,
        )[i] by {
            if resident(m2, i) {
                let k = slot_of(m2, i);
                lemma_slot_of(m2, k);
            }
        }
    }
    assert(coherent(m2, disk2)) by {
        assert forall|k: int| 0 <= k < m2.len() && !(#[trigger] m2[k]).modified implies m2[k].data
            == disk2[m2[k].block_id as int] by {
            let k1 = if k < j {
                k
            } else {
                k + 1
            };
            assert(m[k1] == m2[k]);
        }
        assert forall|k: int| 0 <= k < m2.len() implies (#[trigger] m2[k]).block_id < disk2.len() by {
            let k1 = if k < j {
                k
            } else {
                k + 1
            };
            assert(m[k1] == m2[k]);
        }
    }
}

/// Appending a clean entry loaded from the medium leaves readers' view unchanged.
pub proof fn lemma_push(m: Seq<SlotView>, disk: Seq<Seq<u8>>, s: SlotView)
    requires
        table_wf(m),
        coherent(m, disk),
        m.len() < BLOCK_CACHE_SIZE,
        !resident(m, s.block_id as int),
        s.block_id < disk.len(),
        s.data == disk[s.block_id as int],
        !s.modified,
    ensures
        table_wf(m.push(s)),
        coherent(m.push(s), disk),
        logical(m.push(s), disk) == logical(m, disk),
        forall|i: int| #[trigger] resident(m.push(s), i) == (resident(m, i) || i == s.block_id),
        forall|i: int|
            #[trigger] holders_of(m.push(s), i) == if i == s.block_id {
                s.holders
            } else {
                holders_of(m, i)
            },
{
    let m2 = m.push(s);
    let n = m.len() as int;
    assert forall|k: int| 0 <= k < n implies #[trigger] m2[k] == m[k] by {}
    assert(m2[n] == s);
    assert(table_wf(m2)) by {
        assert forall|a: int, b: int|
            0 <= a < m2.len() && 0 <= b < m2.len() && a != b implies (#[trigger] m2[a]).block_id
            != (#[trigger] m2[b]).block_id by {
            if a < n && b < n {
                assert(m[a].block_id != m[b].block_id);
            } else if a < n {
                assert(m[a].block_id != s.block_id);
            } else {
                assert(m[b].block_id != s.block_id);
            }
        }
    }
    lemma_slot_of(m2, n);
    assert forall|k: int| 0 <= k < n implies slot_of(m2, (#[trigger] m[k]).block_id as int) == k
        && slot_of(m, m[k].block_id as int) == k by {
        lemma_slot_of(m2, k);
        lemma_slot_of(m, k);
    }
    assert forall|i: int| #[trigger] resident(m2, i) == (resident(m, i) || i == s.block_id) by {
        if resident(m, i) {
            let k = choose|k: int| 0 <= k < m.len() && (#[trigger] m[k]).block_id == i;
            assert(m2[k].block_id == i);
        }
        if resident(m2, i) && i != s.block_id {
            let k = choose|k: int| 0 <= k < m2.len() && (#[trigger] m2[k]).block_id == i;
            assert(m[k].block_id == i);
        }
    }
    assert forall|i: int|
        #[trigger] holders_of(m2, i) == if i == s.block_id {
            s.holders
        } else {
            holders_of(m, i)
        } by {
        if resident(m, i) {
            let k = slot_of(m, i);
            lemma_slot_of(m, k);
        }
    }
    assert(logical(m2, disk) =~= logical(m, disk)) by {
        assert forall|i: int| 0 <= i < disk.len() implies #[trigger] logical(m2, disk)[i] == logical(
            m,
            disk,
        )[i] by {
            if resident(m, i) {
                let k = slot_of(m, i);
                lemma_slot_of(m, k);
            }
        }
    }
}

/// A block that was acquired and has since been released leaves room in the table whenever
/// the table had room before it was acquired.
pub proof fn lemma_room_kept(m0: Seq<SlotView>, m2: Seq<SlotView>, id: int)
    requires
        table_wf(m0),
        table_wf(m2),
        has_room(m0),
        resident(m2, id),
        forall|i: int| #[trigger] holders_of(m2, i) == holders_of(m0, i),
        resident(m0, id) ==> m2.len() == m0.len(),
        resident(m0, id) ==> forall|i: int| #[trigger] resident(m2, i) == resident(m0, i),
    ensures
        has_room(m2),
{
    if holders_of(m0, id) == 0 {
        assert(holders_of(m2, id) == 0);
    } else if m0.len() >= BLOCK_CACHE_SIZE {
        let i = choose|i: int| resident(m0, i) && #[trigger] holders_of(m0, i) == 0;
        assert(resident(m2, i));
        assert(holders_of(m2, i) == 0);
    }
}

/// Cache coherence: after a word is written into a resident entry, any later table that shows
/// readers the same contents (as acquiring the block again does) holds the written word in
/// the entry of that block.
pub proof fn lemma_cache_coherence(
    m0: Seq<SlotView>,
    disk: Seq<Seq<u8>>,
    id: int,
    off: int,
    v: u64,
    m2: Seq<SlotView>,
    disk2: Seq<Seq<u8>>,
)
    requires
        table_wf(m0),
        coherent(m0, disk),
        resident(m0, id),
        0 <= off,
        off + 8 <= BLOCK_SZ,
        table_wf(m2),
        resident(m2, id),
        logical(m2, disk2) == logical(
            m0.update(
                slot_of(m0, id),
                SlotView {
                    data: put_u64(m0[slot_of(m0, id)].data, off, v),
                    modified: true,
                    ..m0[slot_of(m0, id)]
                },
            ),
            disk,
        ),
    ensures
        get_u64(m2[slot_of(m2, id)].data, off) == v,
{
    let j = slot_of(m0, id);
    assert(m0[j].block_id == id);
    let s = SlotView { data: put_u64(m0[j].data, off, v), modified: true, ..m0[j] };
    lemma_put_get_u64(m0[j].data, off, v, off);
    lemma_update_slot(m0, disk, j, s);
    assert(id < disk.len());
    assert(logical(m2, disk2).len() == disk2.len());
    assert(logical(m2, disk2)[id] == m2[slot_of(m2, id)].data);
}

/// Flush persistence: once every entry is written back, a fresh, empty table over the medium
/// shows readers exactly what the old table showed.
pub proof fn lemma_flush_persistence(m: Seq<SlotView>, disk: Seq<Seq<u8>>, disk2: Seq<Seq<u8>>)
    requires
        disk2 == logical(m, disk),
    ensures
        logical(Seq::<SlotView>::empty(), disk2) == logical(m, disk),
        forall|i: int| 0 <= i < disk.len() ==> #[trigger] disk2[i] == logical(m, disk)[i],
{
    assert(logical(Seq::<SlotView>::empty(), disk2) =~= disk2);
}

/// Capacity bound: while `BLOCK_CACHE_SIZE` distinct blocks are all held, no other block can
/// be acquired.
pub proof fn lemma_capacity_bound(m: Seq<SlotView>, held: Seq<int>, id: int)
    requires
        table_wf(m),
        held.len() == BLOCK_CACHE_SIZE,
        held.no_duplicates(),
        forall|k: int| 0 <= k < held.len() ==> #[trigger] holders_of(m, held[k]) > 0,
        !held.contains(id),
    ensures
        !can_acquire(m, id),
{
    let slots = Seq::new(held.len(), |k: int| slot_of(m, held[k]));
    assert forall|k: int| 0 <= k < held.len() implies 0 <= #[trigger] slots[k] < m.len() && m[slots[k]].block_id == held[k] by {
        assert(holders_of(m, held[k]) > 0);
        assert(resident(m, held[k]));
    }
    assert(slots.no_duplicates()) by {
        assert forall|a: int, b: int| 0 <= a < slots.len() && 0 <= b < slots.len() && a != b implies slots[a] != slots[b] by {
            assert(m[slots[a]].block_id == held[a]);
            assert(m[slots[b]].block_id == held[b]);
        }
    }
    let range = Set::new(|j: int| 0 <= j < m.len());
    vstd::set_lib::lemma_int_range(0, m.len() as int);
    assert(range =~= vstd::set_lib::set_int_range(0, m.len() as int));
    slots.unique_seq_to_set();
    assert(slots.to_set().subset_of(range));
    vstd::set_lib::lemma_len_subset(slots.to_set(), range);
    assert(m.len() == BLOCK_CACHE_SIZE);
    if resident(m, id) {
        let j = slot_of(m, id);
        let more = slots.push(j);
        assert(m[j].block_id == id);
        assert(more.no_duplicates()) by {
            assert forall|a: int, b: int| 0 <= a < more.len() && 0 <= b < more.len() && a != b implies more[a] != more[b] by {
                if a < slots.len() && b < slots.len() {
                    assert(slots[a] != slots[b]);
                } else if a < slots.len() {
                    assert(m[slots[a]].block_id == held[a]);
                    assert(held[a] != id);
                } else {
                    assert(m[slots[b]].block_id == held[b]);
                    assert(held[b] != id);
                }
            }
        }
        more.unique_seq_to_set();
        assert(more.to_set().subset_of(range));
        vstd::set_lib::lemma_len_subset(more.to_set(), range);
    }
    if has_room(m) {
        let i = choose|i: int| resident(m, i) && #[trigger] holders_of(m, i) == 0;
        let j = slot_of(m, i);
        assert(m[j].block_id == i);
        if held.contains(i) {
            let k = choose|k: int| 0 <= k < held.len() && held[k] == i;
            assert(holders_of(m, held[k]) > 0);
        }
        let more = slots.push(j);
        assert(more.no_duplicates()) by {
            assert forall|a: int, b: int| 0 <= a < more.len() && 0 <= b < more.len() && a != b implies more[a] != more[b] by {
                if a < slots.len() && b < slots.len() {
                    assert(slots[a] != slots[b]);
                } else if a < slots.len() {
                    assert(m[slots[a]].block_id == held[a]);
                    assert(held[a] != i);
                } else {
                    assert(m[slots[b]].block_id == held[b]);
                    assert(held[b] != i);
                }
            }
        }
        more.unique_seq_to_set();
        assert(more.to_set().subset_of(range));
        vstd::set_lib::lemma_len_subset(more.to_set(), range);
    }
}

impl BlockCacheManager {
    /// An empty table.
    pub fn new() -> (r: Self)
        ensures
            r@ == Seq::<SlotView>::empty(),
    {
        let r = BlockCacheManager { queue: Vec::new() };
        assert(r@ =~= Seq::<SlotView>::empty());
        r
    }

    /// Number of entries in the table.
    pub fn len(&self) -> (r: usize)
        ensures
            r == self@.len(),
    {
        self.queue.len()
    }

    fn find(&self, block_id: usize) -> (r: Option<usize>)
        requires
            table_wf(self@),
        ensures
            match r {
                Some(j) => j < self@.len() && self@[j as int].block_id == block_id && slot_of(
                    self@,
                    block_id as int,
                ) == j,
                None => !resident(self@, block_id as int),
            },
    {
        let mut j: usize = 0;
        while j < self.queue.len()
            invariant
                table_wf(self@),
                j <= self@.len(),
                forall|k: int| 0 <= k < j ==> (#[trigger] self@[k]).block_id != block_id,
            decreases self@.len() - j,
        {
            assert(self@[j as int] == slot_view(self.queue@[j as int]));
            if self.queue[j].cache.block_id() == block_id {
                proof {
                    lemma_slot_of(self@, j as int);
                }
                return Some(j);
            }
            j = j + 1;
        }
        None
    }

    fn find_reclaimable(&self) -> (r: usize)
        requires
            table_wf(self@),
            self@.len() == BLOCK_CACHE_SIZE,
            has_room(self@),
        ensures
            r < self@.len(),
            self@[r as int].holders == 0,
    {
        let mut j: usize = 0;
        while j < self.queue.len()
            invariant
                j <= self@.len(),
                self@.len() == BLOCK_CACHE_SIZE,
                has_room(self@),
                forall|k: int| 0 <= k < j ==> (#[trigger] self@[k]).holders != 0,
            decreases self@.len() - j,
        {
            assert(self@[j as int] == slot_view(self.queue@[j as int]));
            if self.queue[j].holders == 0 {
                return j;
            }
            j = j + 1;
        }
        proof {
            let i = choose|i: int| resident(self@, i) && #[trigger] holders_of(self@, i) == 0;
            assert(self@[slot_of(self@, i)].holders != 0);
        }
        j
    }

    /// Number of outside holders of block `block_id`.
    pub fn holders(&self, block_id: usize) -> (r: usize)
        requires
            table_wf(self@),
        ensures
            r == holders_of(self@, block_id as int),
    {
        match self.find(block_id) {
            Some(j) => {
                assert(self@[j as int] == slot_view(self.queue@[j as int]));
                self.queue[j].holders
            },
            None => 0,
        }
    }

    /// Whether block `block_id` can be acquired now.
    pub fn can_acquire(&self, block_id: usize) -> (r: bool)
        requires
            table_wf(self@),
        ensures
            r == can_acquire(self@, block_id as int),
    {
        if self.find(block_id).is_some() {
            return true;
        }
        if self.queue.len() < BLOCK_CACHE_SIZE {
            return true;
        }
        let mut j: usize = 0;
        while j < self.queue.len()
            invariant
                table_wf(self@),
                !resident(self@, block_id as int),
                self@.len() == BLOCK_CACHE_SIZE,
                j <= self@.len(),
                forall|k: int| 0 <= k < j ==> (#[trigger] self@[k]).holders != 0,
            decreases self@.len() - j,
        {
            assert(self@[j as int] == slot_view(self.queue@[j as int]));
            if self.queue[j].holders == 0 {
                proof {
                    lemma_slot_of(self@, j as int);
                    assert(holders_of(self@, self@[j as int].block_id as int) == 0);
                }
                return true;
            }
            j = j + 1;
        }
        proof {
            if has_room(self@) {
                let i = choose|i: int| resident(self@, i) && #[trigger] holders_of(self@, i) == 0;
                assert(self@[slot_of(self@, i)].holders != 0);
            }
        }
        false
    }
    /// Makes block `block_id` resident and counts one more holder of it. A block already in
    /// the table is shared; otherwise, when the table is full, the first entry that nobody
    /// holds is written back and dropped, and the block is loaded from the medium.
    pub fn get_block_cache<D: BlockDevice>(&mut self, block_id: usize, block_device: &mut D)
        requires
            table_wf(old(self)@),
            coherent(old(self)@, old(block_device).blocks()),
            block_id < old(block_device).blocks().len(),
            can_acquire(old(self)@, block_id as int),
            holders_of(old(self)@, block_id as int) < usize::MAX,
        ensures
            table_wf(final(self)@),
            coherent(final(self)@, final(block_device).blocks()),
            final(block_device).blocks().len() == old(block_device).blocks().len(),
            logical(final(self)@, final(block_device).blocks()) == logical(
                old(self)@,
                old(block_device).blocks(),
            ),
            resident(final(self)@, block_id as int),
            forall|i: int|
                #[trigger] holders_of(final(self)@, i) == holders_of(old(self)@, i) + if i
                    == block_id {
                    1nat
                } else {
                    0nat
                },
            resident(old(self)@, block_id as int) ==> final(self)@.len() == old(self)@.len(),
            resident(old(self)@, block_id as int) ==> forall|i: int|
                #[trigger] resident(final(self)@, i) == resident(old(self)@, i),
            !resident(old(self)@, block_id as int) ==> final(self)@.len() == old(self)@.len() + (
            if old(self)@.len() < BLOCK_CACHE_SIZE {
                1int
            } else {
                0int
            }),
    {
        match self.find(block_id) {
            Some(j) => {
                let h = self.queue[j].holders;
                self.queue[j].holders = h + 1;
                proof {
                    let s = SlotView { holders: (h + 1) as nat, ..old(self)@[j as int] };
                    assert(self@ =~= old(self)@.update(j as int, s));
                    lemma_update_slot(old(self)@, old(block_device).blocks(), j as int, s);
                    assert(logical(self@, block_device.blocks()) =~= logical(
                        old(self)@,
                        old(block_device).blocks(),
                    ));
                }
            },
            None => {
                if self.queue.len() == BLOCK_CACHE_SIZE {
                    let idx = self.find_reclaimable();
                    let ghost m0 = self@;
                    let ghost d0 = block_device.blocks();
                    assert(self@[idx as int] == slot_view(self.queue@[idx as int]));
                    let mut slot = self.queue.remove(idx);
                    slot.cache.sync(block_device);
                    proof {
                        assert(self@ =~= m0.remove(idx as int));
                        lemma_evict(m0, d0, idx as int, block_device.blocks());
                        assert(holders_of(m0, m0[idx as int].block_id as int) == 0) by {
                            lemma_slot_of(m0, idx as int);
                        }
                    }
                }
                let ghost m1 = self@;
                let ghost d1 = block_device.blocks();
                let cache = BlockCache::new(block_id, block_device);
                self.queue.push(Slot { cache, holders: 1 });
                proof {
                    let s = SlotView {
                        block_id: block_id as nat,
                        data: d1[block_id as int],
                        modified: false,
                        holders: 1,
                    };
                    assert(self@ =~= m1.push(s));
                    lemma_push(m1, d1, s);
                }
            },
        }
    }

    /// Gives up one hold on block `block_id`.
    pub fn release(&mut self, block_id: usize)
        requires
            table_wf(old(self)@),
            holders_of(old(self)@, block_id as int) > 0,
        ensures
            final(self)@ == old(self)@.update(
                slot_of(old(self)@, block_id as int),
                SlotView {
                    holders: (holders_of(old(self)@, block_id as int) - 1) as nat,
                    ..old(self)@[slot_of(old(self)@, block_id as int)]
                },
            ),
    {
        let j = self.find(block_id).unwrap();
        let h = self.queue[j].holders;
        self.queue[j].holders = h - 1;
        proof {
            let s = SlotView { holders: (h - 1) as nat, ..old(self)@[j as int] };
            assert(self@ =~= old(self)@.update(j as int, s));
        }
    }

    /// The little-endian word at `offset` of resident block `block_id`.
    pub fn read_u64(&self, block_id: usize, offset: usize) -> (r: u64)
        requires
            table_wf(self@),
            resident(self@, block_id as int),
            offset + 8 <= BLOCK_SZ,
        ensures
            r == get_u64(self@[slot_of(self@, block_id as int)].data, offset as int),
    {
        let j = self.find(block_id).unwrap();
        assert(self@[j as int] == slot_view(self.queue@[j as int]));
        self.queue[j].cache.read_u64(offset)
    }

    /// Stores `value` little-endian at `offset` of resident block `block_id`.
    pub fn write_u64(&mut self, block_id: usize, offset: usize, value: u64)
        requires
            table_wf(old(self)@),
            resident(old(self)@, block_id as int),
            offset + 8 <= BLOCK_SZ,
        ensures
            final(self)@ == old(self)@.update(
                slot_of(old(self)@, block_id as int),
                SlotView {
                    data: put_u64(
                        old(self)@[slot_of(old(self)@, block_id as int)].data,
                        offset as int,
                        value,
                    ),
                    modified: true,
                    ..old(self)@[slot_of(old(self)@, block_id as int)]
                },
            ),
    {
        let j = self.find(block_id).unwrap();
        assert(self@[j as int] == slot_view(self.queue@[j as int]));
        self.queue[j].cache.write_u64(offset, value);
        proof {
            let s = SlotView {
                data: put_u64(old(self)@[j as int].data, offset as int, value),
                modified: true,
                ..old(self)@[j as int]
            };
            assert(self@ =~= old(self)@.update(j as int, s));
        }
    }

    /// Writes every modified entry back to the medium; the entries stay, all clean.
    pub fn sync_all<D: BlockDevice>(&mut self, block_device: &mut D)
        requires
            table_wf(old(self)@),
            coherent(old(self)@, old(block_device).blocks()),
        ensures
            table_wf(final(self)@),
            coherent(final(self)@, final(block_device).blocks()),
            final(block_device).blocks() == logical(old(self)@, old(block_device).blocks()),
            logical(final(self)@, final(block_device).blocks()) == logical(
                old(self)@,
                old(block_device).blocks(),
            ),
            final(self)@.len() == old(self)@.len(),
            forall|j: int|
                0 <= j < final(self)@.len() ==> #[trigger] final(self)@[j] == (SlotView {
                    modified: false,
                    ..old(self)@[j]
                }),
    {
        let n = self.queue.len();
        let mut j: usize = 0;
        while j < n
            invariant
                n == self@.len(),
                n == old(self)@.len(),
                j <= n,
                table_wf(old(self)@),
                coherent(old(self)@, old(block_device).blocks()),
                blocks_wf(block_device.blocks()),
                block_device.blocks().len() == old(block_device).blocks().len(),
                forall|k: int|
                    0 <= k < n ==> #[trigger] self@[k] == if k < j {
                        SlotView { modified: false, ..old(self)@[k] }
                    } else {
                        old(self)@[k]
                    },
                forall|i: int|
                    0 <= i < block_device.blocks().len() ==> #[trigger] block_device.blocks()[i]
                        == if exists|k: int| 0 <= k < j && (#[trigger] old(self)@[k]).block_id == i {
                        logical(old(self)@, old(block_device).blocks())[i]
                    } else {
                        old(block_device).blocks()[i]
                    },
            decreases n - j,
        {
            let ghost m_prev = self@;
            assert(self@[j as int] == slot_view(self.queue@[j as int]));
            self.queue[j].cache.sync(block_device);
            proof {
                assert(self@ =~= m_prev.update(
                    j as int,
                    SlotView { modified: false, ..m_prev[j as int] },
                ));
                let m = old(self)@;
                lemma_slot_of(m, j as int);
                let id = m[j as int].block_id as int;
                assert forall|i: int| 0 <= i < block_device.blocks().len() implies #[trigger] block_device.blocks()[i]
                    == if exists|k: int| 0 <= k < j + 1 && (#[trigger] m[k]).block_id == i {
                    logical(m, old(block_device).blocks())[i]
                } else {
                    old(block_device).blocks()[i]
                } by {
                    if i == id {
                        assert(m[j as int].block_id == i);
                    } else if exists|k: int| 0 <= k < j + 1 && (#[trigger] m[k]).block_id == i {
                        let k = choose|k: int| 0 <= k < j + 1 && (#[trigger] m[k]).block_id == i;
                        assert(k != j);
                    }
                }
                assert(blocks_wf(block_device.blocks()));
            }
            j = j + 1;
        }
        proof {
            let m = old(self)@;
            let d = old(block_device).blocks();
            assert(block_device.blocks() =~= logical(m, d)) by {
                assert forall|i: int| 0 <= i < d.len() implies #[trigger] block_device.blocks()[i]
                    == logical(m, d)[i] by {
                    if resident(m, i) {
                        let k = slot_of(m, i);
                        assert(m[k].block_id == i);
                    }
                }
            }
            assert forall|k: int| 0 <= k < n implies slot_of(self@, (#[trigger] self@[k]).block_id as int) == k && slot_of(m, m[k].block_id as int) == k by {
                lemma_slot_of(m, k);
                assert(table_wf(self@));
                lemma_slot_of(self@, k);
            }
            assert forall|i: int| #[trigger] resident(self@, i) == resident(m, i) by {
                if resident(m, i) {
                    let k = choose|k: int| 0 <= k < m.len() && (#[trigger] m[k]).block_id == i;
                    assert(self@[k].block_id == i);
                }
                if resident(self@, i) {
                    let k = choose|k: int| 0 <= k < self@.len() && (#[trigger] self@[k]).block_id == i;
                    assert(m[k].block_id == i);
                }
            }
            assert(logical(self@, block_device.blocks()) =~= logical(m, d)) by {
                assert forall|i: int| 0 <= i < d.len() implies #[trigger] logical(self@, block_device.blocks())[i] == logical(m, d)[i] by {
                    if resident(m, i) {
                        let k = slot_of(m, i);
                        assert(m[k].block_id == i);
                    }
                }
            }
            assert forall|k: int| 0 <= k < n implies (#[trigger] self@[k]).data == block_device.blocks()[self@[k].block_id as int] by {
                lemma_slot_of(m, k);
            }
        }
    }
}

} // verus!
