//! Free-space bitmap over a run of blocks, read and written through the block cache.
use vstd::prelude::*;
use vstd::arithmetic::div_mod::lemma_fundamental_div_mod_converse;
use vstd::std_specs::bits::axiom_u64_trailing_ones;

use crate::block_cache::{
    coherent, get_u64, has_room, holders_of, lemma_put_get_u64, lemma_room_kept, lemma_slot_of,
    lemma_update_slot, logical, put_u64, resident, slot_of, table_wf, BlockCacheManager,
};
use crate::block_dev::{blocks_wf, BlockDevice};
use crate::BLOCK_SZ;

verus! {

/// Number of bits one bitmap block holds.
pub const BLOCK_BITS: usize = BLOCK_SZ * 8;

/// The word that holds bit `b` of a bitmap whose first block is `start`.
pub open spec fn word_of(disk: Seq<Seq<u8>>, start: int, b: int) -> u64 {
    get_u64(disk[start + b / BLOCK_BITS as int], 8 * ((b % BLOCK_BITS as int) / 64))
}

/// Bit `b` of the bitmap whose first block is `start` is set.
pub open spec fn bit_set(disk: Seq<Seq<u8>>, start: int, b: int) -> bool {
    (word_of(disk, start, b) >> ((b % 64) as u64)) & 1u64 == 1u64
}

/// `disk` with the word that holds bit `b` replaced by `v`.
pub open spec fn with_word(disk: Seq<Seq<u8>>, start: int, b: int, v: u64) -> Seq<Seq<u8>> {
    let blk = start + b / BLOCK_BITS as int;
    disk.update(blk, put_u64(disk[blk], 8 * ((b % BLOCK_BITS as int) / 64), v))
}

/// `disk` with bit `b` set.
pub open spec fn set_bit(disk: Seq<Seq<u8>>, start: int, b: int) -> Seq<Seq<u8>> {
    with_word(disk, start, b, word_of(disk, start, b) | (1u64 << ((b % 64) as u64)))
}

/// `disk` with bit `b` cleared.
pub open spec fn clear_bit(disk: Seq<Seq<u8>>, start: int, b: int) -> Seq<Seq<u8>> {
    with_word(disk, start, b, word_of(disk, start, b) & !(1u64 << ((b % 64) as u64)))
}

/// Every bit below `n` is set.
pub open spec fn all_set_below(disk: Seq<Seq<u8>>, start: int, n: int) -> bool {
    forall|c: int| 0 <= c < n ==> #[trigger] bit_set(disk, start, c)
}

/// Bit `blk * BLOCK_BITS + w * 64 + k` lies in block `blk`, word `w`, place `k`.
pub proof fn lemma_decompose(blk: int, w: int, k: int)
    requires
        0 <= blk,
        0 <= w < 64,
        0 <= k < 64,
    ensures
        (blk * BLOCK_BITS + w * 64 + k) / BLOCK_BITS as int == blk,
        ((blk * BLOCK_BITS + w * 64 + k) % BLOCK_BITS as int) / 64 == w,
        (blk * BLOCK_BITS + w * 64 + k) % 64 == k,
{
    let b = blk * BLOCK_BITS + w * 64 + k;
    lemma_fundamental_div_mod_converse(b, BLOCK_BITS as int, blk, w * 64 + k);
    lemma_fundamental_div_mod_converse(w * 64 + k, 64, w, k);
    lemma_fundamental_div_mod_converse(b, 64, blk * 64 + w, k);
}

/// A word with every bit set has each of its bits set.
pub proof fn lemma_full_word(j: u64)
    requires
        j < 64,
    ensures
        (0xffff_ffff_ffff_ffffu64 >> j) & 1u64 == 1u64,
{
    assert((0xffff_ffff_ffff_ffffu64 >> j) & 1u64 == 1u64) by (bit_vector)
        requires
            j < 64,
    ;
}

/// The `count` blocks from `start` are whole blocks of the medium.
pub open spec fn region_wf(disk: Seq<Seq<u8>>, start: int, count: int) -> bool {
    &&& blocks_wf(disk)
    &&& 0 <= start
    &&& 0 <= count
    &&& start + count <= disk.len()
}

/// Bits below `k` are set and the other bits of the bitmap are clear.
pub open spec fn prefix_set(disk: Seq<Seq<u8>>, start: int, count: int, k: int) -> bool {
    forall|c: int| 0 <= c < count * BLOCK_BITS ==> #[trigger] bit_set(disk, start, c) == (c < k)
}

proof fn lemma_bit_place(count: int, c: int)
    requires
        0 <= c < count * BLOCK_BITS,
    ensures
        0 <= c / (BLOCK_BITS as int),
        c / (BLOCK_BITS as int) < count,
        0 <= (c % (BLOCK_BITS as int)) / 64,
        (c % (BLOCK_BITS as int)) / 64 < 64,
{
    assert(c / (BLOCK_BITS as int) < count) by (nonlinear_arith)
        requires
            0 <= c < count * BLOCK_BITS,
            BLOCK_BITS == 4096,
    ;
}

proof fn lemma_word_bits(w: u64, kb: u64, kc: u64)
    requires
        kb < 64,
        kc < 64,
    ensures
        ((w | (1u64 << kb)) >> kc) & 1u64 == if kb == kc {
            1u64
        } else {
            (w >> kc) & 1u64
        },
        ((w & !(1u64 << kb)) >> kc) & 1u64 == if kb == kc {
            0u64
        } else {
            (w >> kc) & 1u64
        },
{
    assert(((w | (1u64 << kb)) >> kc) & 1u64 == if kb == kc {
        1u64
    } else {
        (w >> kc) & 1u64
    }) by (bit_vector)
        requires
            kb < 64,
            kc < 64,
    ;
    assert(((w & !(1u64 << kb)) >> kc) & 1u64 == if kb == kc {
        0u64
    } else {
        (w >> kc) & 1u64
    }) by (bit_vector)
        requires
            kb < 64,
            kc < 64,
    ;
}

/// Setting bit `b` sets it and leaves every other bit as it was; clearing it clears it and
/// leaves every other bit as it was.
pub proof fn lemma_set_clear_bit(disk: Seq<Seq<u8>>, start: int, count: int, b: int, c: int)
    requires
        region_wf(disk, start, count),
        0 <= b < count * BLOCK_BITS,
        0 <= c < count * BLOCK_BITS,
    ensures
        bit_set(set_bit(disk, start, b), start, c) == (c == b || bit_set(disk, start, c)),
        bit_set(clear_bit(disk, start, b), start, c) == (c != b && bit_set(disk, start, c)),
        set_bit(disk, start, b).len() == disk.len(),
        clear_bit(disk, start, b).len() == disk.len(),
        region_wf(set_bit(disk, start, b), start, count),
        region_wf(clear_bit(disk, start, b), start, count),
{
    lemma_bit_place(count, b);
    lemma_bit_place(count, c);
    let blk_b = start + b / BLOCK_BITS as int;
    let blk_c = start + c / BLOCK_BITS as int;
    let off_b = 8 * ((b % BLOCK_BITS as int) / 64);
    let off_c = 8 * ((c % BLOCK_BITS as int) / 64);
    let w = word_of(disk, start, b);
    let kb = (b % 64) as u64;
    let kc = (c % 64) as u64;
    let vs = w | (1u64 << kb);
    let vc = w & !(1u64 << kb);
    lemma_put_get_u64(disk[blk_b], off_b, vs, off_c);
    lemma_put_get_u64(disk[blk_b], off_b, vc, off_c);
    lemma_word_bits(w, kb, kc);
    if blk_b == blk_c && off_b == off_c {
        if kb == kc {
            assert(b == c) by {
                lemma_fundamental_div_mod_converse(b, 64, b / 64, b % 64);
                lemma_fundamental_div_mod_converse(c, 64, c / 64, c % 64);
                lemma_fundamental_div_mod_converse(b, BLOCK_BITS as int, b / BLOCK_BITS as int, b % BLOCK_BITS as int);
                lemma_fundamental_div_mod_converse(c, BLOCK_BITS as int, c / BLOCK_BITS as int, c % BLOCK_BITS as int);
                lemma_fundamental_div_mod_converse(b % BLOCK_BITS as int, 64, (b % BLOCK_BITS as int) / 64, (b % BLOCK_BITS as int) % 64);
                lemma_fundamental_div_mod_converse(c % BLOCK_BITS as int, 64, (c % BLOCK_BITS as int) / 64, (c % BLOCK_BITS as int) % 64);
                lemma_fundamental_div_mod_converse(b, 64, (b / BLOCK_BITS as int) * 64 + (b % BLOCK_BITS as int) / 64, (b % BLOCK_BITS as int) % 64);
                lemma_fundamental_div_mod_converse(c, 64, (c / BLOCK_BITS as int) * 64 + (c % BLOCK_BITS as int) / 64, (c % BLOCK_BITS as int) % 64);
            }
        }
    }
    assert(blocks_wf(set_bit(disk, start, b)));
    assert(blocks_wf(clear_bit(disk, start, b)));
}

/// Allocation order: on a bitmap whose bits below `k` are set and whose other bits are clear
/// (a zeroed bitmap, for `k == 0`), the lowest clear bit is `k`, and setting it leaves the
/// bits below `k + 1` set and the others clear. When `k` reaches the size, no bit is clear.
pub proof fn lemma_allocation_order(disk: Seq<Seq<u8>>, start: int, count: int, k: int, b: int)
    requires
        region_wf(disk, start, count),
        0 <= k <= count * BLOCK_BITS,
        prefix_set(disk, start, count, k),
    ensures
        all_set_below(disk, start, k),
        k < count * BLOCK_BITS ==> !all_set_below(disk, start, count * BLOCK_BITS),
        0 <= b < count * BLOCK_BITS && all_set_below(disk, start, b) && !bit_set(disk, start, b)
            ==> b == k && prefix_set(set_bit(disk, start, b), start, count, k + 1),
{
    if k < count * BLOCK_BITS {
        assert(!bit_set(disk, start, k));
    }
    if 0 <= b < count * BLOCK_BITS && all_set_below(disk, start, b) && !bit_set(disk, start, b) {
        if b > k {
            assert(bit_set(disk, start, k));
        }
        assert forall|c: int| 0 <= c < count * BLOCK_BITS implies #[trigger] bit_set(
            set_bit(disk, start, b),
            start,
            c,
        ) == (c < k + 1) by {
            lemma_set_clear_bit(disk, start, count, b, c);
        }
    }
}

/// A zeroed bitmap has every bit clear.
pub proof fn lemma_zeroed_clear(disk: Seq<Seq<u8>>, start: int, count: int)
    requires
        region_wf(disk, start, count),
        forall|i: int|
            start <= i < start + count ==> #[trigger] disk[i] == Seq::new(BLOCK_SZ as nat, |k: int| 0u8),
    ensures
        prefix_set(disk, start, count, 0),
{
    assert forall|c: int| 0 <= c < count * BLOCK_BITS implies #[trigger] bit_set(disk, start, c)
        == (c < 0) by {
        lemma_bit_place(count, c);
        let blk = start + c / BLOCK_BITS as int;
        let off = 8 * ((c % BLOCK_BITS as int) / 64);
        let z = Seq::new(8, |k: int| 0u8);
        assert(disk[blk].subrange(off, off + 8) =~= z);
        vstd::bytes::lemma_auto_spec_u64_to_from_le_bytes();
        assert(vstd::bytes::spec_u64_to_le_bytes(0u64) == z) by {
            vstd::bytes::spec_u64_to_le_bytes_to_open(0u64);
            assert(vstd::bytes::spec_u64_to_le_bytes_open(0u64) =~= z) by {
                assert((0u64 & 0xff) as u8 == 0u8) by (bit_vector);
                assert(((0u64 >> 8) & 0xff) as u8 == 0u8) by (bit_vector);
                assert(((0u64 >> 16) & 0xff) as u8 == 0u8) by (bit_vector);
                assert(((0u64 >> 24) & 0xff) as u8 == 0u8) by (bit_vector);
                assert(((0u64 >> 32) & 0xff) as u8 == 0u8) by (bit_vector);
                assert(((0u64 >> 40) & 0xff) as u8 == 0u8) by (bit_vector);
                assert(((0u64 >> 48) & 0xff) as u8 == 0u8) by (bit_vector);
                assert(((0u64 >> 56) & 0xff) as u8 == 0u8) by (bit_vector);
            }
        }
        assert(word_of(disk, start, c) == 0u64);
        let kc = (c % 64) as u64;
        assert((0u64 >> kc) & 1u64 == 0u64) by (bit_vector);
    }
}

/// Freeing a bit and allocating again gives the same bit back when every bit below it is in
/// use, and the bitmap ends as it began.
pub proof fn lemma_round_trip(disk: Seq<Seq<u8>>, start: int, count: int, i: int, b: int)
    requires
        region_wf(disk, start, count),
        0 <= i < count * BLOCK_BITS,
        bit_set(disk, start, i),
        all_set_below(disk, start, i),
        0 <= b < count * BLOCK_BITS,
        all_set_below(clear_bit(disk, start, i), start, b),
        !bit_set(clear_bit(disk, start, i), start, b),
    ensures
        b == i,
        forall|c: int|
            0 <= c < count * BLOCK_BITS ==> #[trigger] bit_set(
                set_bit(clear_bit(disk, start, i), start, b),
                start,
                c,
            ) == bit_set(disk, start, c),
{
    let d1 = clear_bit(disk, start, i);
    lemma_set_clear_bit(disk, start, count, i, b);
    if b < i {
        assert(bit_set(disk, start, b));
    } else if b > i {
        lemma_set_clear_bit(disk, start, count, i, i);
        assert(bit_set(d1, start, i));
    }
    assert forall|c: int| 0 <= c < count * BLOCK_BITS implies #[trigger] bit_set(
        set_bit(d1, start, b),
        start,
        c,
    ) == bit_set(disk, start, c) by {
        lemma_set_clear_bit(disk, start, count, i, c);
        lemma_set_clear_bit(d1, start, count, b, c);
    }
}

/// Two allocations with no free between them return different bits: the first one's bit is
/// set when the second one looks for a clear bit.
pub proof fn lemma_no_double_allocation(disk: Seq<Seq<u8>>, start: int, count: int, b1: int, b2: int)
    requires
        region_wf(disk, start, count),
        0 <= b1 < count * BLOCK_BITS,
        0 <= b2 < count * BLOCK_BITS,
        !bit_set(set_bit(disk, start, b1), start, b2),
    ensures
        b1 != b2,
{
    lemma_set_clear_bit(disk, start, count, b1, b2);
}

/// Decomposes a bit index into (block, word, place in the word).
fn decomposition(bit: usize) -> (r: (usize, usize, usize))
    ensures
        r.0 == bit / BLOCK_BITS,
        r.1 == (bit % BLOCK_BITS) / 64,
        r.2 == bit % 64,
        r.1 < 64,
        r.2 < 64,
{
    let block_pos = bit / BLOCK_BITS;
    let rest = bit % BLOCK_BITS;
    assert(rest % 64 == bit % 64) by {
        lemma_fundamental_div_mod_converse(bit as int, BLOCK_BITS as int, block_pos as int, rest as int);
        lemma_fundamental_div_mod_converse(rest as int, 64, rest as int / 64, rest as int % 64);
        lemma_fundamental_div_mod_converse(bit as int, 64, block_pos * 64 + rest as int / 64, rest as int % 64);
    }
    (block_pos, rest / 64, rest % 64)
}

/// A bitmap over `blocks` consecutive blocks of the medium starting at `start_block_id`.
pub struct Bitmap {
    start_block_id: usize,
    blocks: usize,
}

impl Bitmap {
    /// First block of the bitmap on the medium.
    pub closed spec fn start_block(&self) -> nat {
        self.start_block_id as nat
    }

    /// Number of blocks of the bitmap.
    pub closed spec fn block_count(&self) -> nat {
        self.blocks as nat
    }

    pub fn new(start_block_id: usize, blocks: usize) -> (r: Self)
        ensures
            r.start_block() == start_block_id,
            r.block_count() == blocks,
    {
        Self { start_block_id, blocks }
    }

    /// Number of bits the bitmap holds.
    pub fn maximum(&self) -> (r: usize)
        requires
            self.block_count() * BLOCK_BITS <= usize::MAX,
        ensures
            r == self.block_count() * BLOCK_BITS,
    {
        self.blocks * BLOCK_BITS
    }
    /// The bitmap lies on a medium of `disk_len` blocks and its bit indices fit in `usize`.
    pub open spec fn fits(&self, disk_len: nat) -> bool {
        &&& self.start_block() + self.block_count() <= disk_len
        &&& self.start_block() + self.block_count() <= usize::MAX
        &&& self.block_count() * BLOCK_BITS <= usize::MAX
    }

    /// Sets the lowest clear bit and returns its index, or `None` when every bit is set.
    #[verifier::loop_isolation(false)]
    pub fn allocate<D: BlockDevice>(&self, manager: &mut BlockCacheManager, block_device: &mut D) -> (r:
        Option<usize>)
        requires
            self.fits(old(block_device).blocks().len()),
            table_wf(old(manager)@),
            coherent(old(manager)@, old(block_device).blocks()),
            has_room(old(manager)@),
            forall|i: int| #[trigger] holders_of(old(manager)@, i) < usize::MAX,
        ensures
            table_wf(final(manager)@),
            coherent(final(manager)@, final(block_device).blocks()),
            has_room(final(manager)@),
            forall|i: int| #[trigger] holders_of(final(manager)@, i) == holders_of(old(manager)@, i),
            final(block_device).blocks().len() == old(block_device).blocks().len(),
            ({
                let l0 = logical(old(manager)@, old(block_device).blocks());
                let l1 = logical(final(manager)@, final(block_device).blocks());
                let start = self.start_block() as int;
                match r {
                    Some(b) => {
                        &&& b < self.block_count() * BLOCK_BITS
                        &&& all_set_below(l0, start, b as int)
                        &&& !bit_set(l0, start, b as int)
                        &&& l1 == set_bit(l0, start, b as int)
                    },
                    None => {
                        &&& all_set_below(l0, start, self.block_count() * BLOCK_BITS)
                        &&& l1 == l0
                    },
                }
            }),
    {
        let ghost m0 = manager@;
        let ghost l0 = logical(manager@, block_device.blocks());
        let ghost start = self.start_block() as int;
        let ghost n = block_device.blocks().len();
        let mut block_id: usize = 0;
        while block_id < self.blocks
            invariant
                self.fits(n),
                n == block_device.blocks().len(),
                start == self.start_block(),
                block_id <= self.block_count(),
                table_wf(manager@),
                coherent(manager@, block_device.blocks()),
                has_room(manager@),
                has_room(m0),
                table_wf(m0),
                forall|i: int| #[trigger] holders_of(manager@, i) == holders_of(m0, i),
                forall|i: int| #[trigger] holders_of(m0, i) < usize::MAX,
                logical(manager@, block_device.blocks()) == l0,
                l0.len() == n,
                all_set_below(l0, start, block_id * BLOCK_BITS),
            decreases self.block_count() - block_id,
        {
            let id = block_id + self.start_block_id;
            let ghost ma = manager@;
            manager.get_block_cache(id, block_device);
            let ghost m1 = manager@;
            let ghost d = block_device.blocks();
            let ghost j1 = slot_of(m1, id as int);
            assert(m1[j1].data == l0[id as int]);
            let mut w: usize = 0;
            while w < 64
                invariant
                    self.fits(n),
                    start == self.start_block(),
                    block_id < self.block_count(),
                    id == start + block_id,
                    w <= 64,
                    manager@ == m1,
                    block_device.blocks() == d,
                    resident(m1, id as int),
                    table_wf(m1),
                    l0.len() == n,
                    m1[j1].data == l0[id as int],
                    j1 == slot_of(m1, id as int),
                    m1[j1].data.len() == BLOCK_SZ,
                    all_set_below(l0, start, block_id * BLOCK_BITS + w * 64),
                decreases 64 - w,
            {
                let word = manager.read_u64(id, w * 8);
                proof {
                    lemma_decompose(block_id as int, w as int, 0);
                    assert(word == word_of(l0, start, block_id * BLOCK_BITS + w * 64));
                }
                if word != 0xffff_ffff_ffff_ffffu64 {
                    proof {
                        axiom_u64_trailing_ones(word);
                    }
                    let k = word.trailing_ones() as usize;
                    let ghost b = block_id * BLOCK_BITS + w * 64 + k;
                    manager.write_u64(id, w * 8, word | (1u64 << (k as u64)));
                    let ghost m1w = manager@;
                    proof {
                        assert(m1[j1].block_id == id);
                        assert(holders_of(m1, id as int) > 0);
                        assert(block_id * BLOCK_BITS + BLOCK_BITS <= self.block_count() * BLOCK_BITS)
                            by (nonlinear_arith)
                            requires
                                block_id < self.block_count(),
                        ;
                        lemma_put_get_u64(m1[j1].data, w * 8, word | (1u64 << (k as u64)), w * 8);
                        lemma_update_slot(m1, d, j1, m1w[j1]);
                    }
                    manager.release(id);
                    proof {
                        lemma_decompose(block_id as int, w as int, k as int);
                        let sw = m1w[j1];
                        lemma_slot_of(m1w, j1);
                        let sr = manager@[j1];
                        lemma_update_slot(m1w, d, j1, sr);
                        assert(logical(m1w, d)[id as int] == sw.data);
                        assert(logical(manager@, d) =~= logical(m1w, d));
                        assert(logical(manager@, d) =~= set_bit(l0, start, b));
                        assert forall|c: int| 0 <= c < b implies #[trigger] bit_set(l0, start, c) by {
                            if c >= block_id * BLOCK_BITS + w * 64 {
                                let jj = c - (block_id * BLOCK_BITS + w * 64);
                                lemma_decompose(block_id as int, w as int, jj);
                                assert((word >> (jj as u64)) & 1u64 == 1u64);
                            }
                        }
                        lemma_room_kept(ma, manager@, id as int);
                    }
                    return Some(block_id * BLOCK_BITS + w * 64 + k);
                }
                proof {
                    let base = block_id * BLOCK_BITS + w * 64;
                    assert forall|c: int| 0 <= c < base + 64 implies #[trigger] bit_set(l0, start, c) by {
                        if c >= base {
                            lemma_decompose(block_id as int, w as int, c - base);
                            lemma_full_word((c - base) as u64);
                        }
                    }
                }
                w = w + 1;
            }
            manager.release(id);
            proof {
                lemma_slot_of(m1, j1);
                let sr = manager@[j1];
                lemma_update_slot(m1, d, j1, sr);
                assert(logical(manager@, d) =~= logical(m1, d));
                lemma_room_kept(ma, manager@, id as int);
                assert((block_id + 1) * BLOCK_BITS == block_id * BLOCK_BITS + 64 * 64) by (
                nonlinear_arith)
                    requires
                        BLOCK_BITS == 4096,
                ;
            }
            block_id = block_id + 1;
        }
        None
    }
    /// Clears bit `bit`, which must be set.
    pub fn dealloc<D: BlockDevice>(
        &self,
        manager: &mut BlockCacheManager,
        block_device: &mut D,
        bit: usize,
    )
        requires
            self.fits(old(block_device).blocks().len()),
            table_wf(old(manager)@),
            coherent(old(manager)@, old(block_device).blocks()),
            has_room(old(manager)@),
            forall|i: int| #[trigger] holders_of(old(manager)@, i) < usize::MAX,
            bit < self.block_count() * BLOCK_BITS,
            bit_set(
                logical(old(manager)@, old(block_device).blocks()),
                self.start_block() as int,
                bit as int,
            ),
        ensures
            table_wf(final(manager)@),
            coherent(final(manager)@, final(block_device).blocks()),
            has_room(final(manager)@),
            forall|i: int| #[trigger] holders_of(final(manager)@, i) == holders_of(old(manager)@, i),
            final(block_device).blocks().len() == old(block_device).blocks().len(),
            logical(final(manager)@, final(block_device).blocks()) == clear_bit(
                logical(old(manager)@, old(block_device).blocks()),
                self.start_block() as int,
                bit as int,
            ),
    {
        let ghost ma = manager@;
        let ghost l0 = logical(manager@, block_device.blocks());
        let ghost start = self.start_block() as int;
        let (block_pos, bits64_pos, inner_pos) = decomposition(bit);
        assert(block_pos < self.block_count()) by (nonlinear_arith)
            requires
                block_pos == bit / BLOCK_BITS,
                bit < self.block_count() * BLOCK_BITS,
                BLOCK_BITS == 4096,
        ;
        let id = block_pos + self.start_block_id;
        manager.get_block_cache(id, block_device);
        let ghost m1 = manager@;
        let ghost d = block_device.blocks();
        let ghost j1 = slot_of(m1, id as int);
        assert(m1[j1].block_id == id);
        assert(m1[j1].data == l0[id as int]);
        let word = manager.read_u64(id, bits64_pos * 8);
        let new_word = word & !(1u64 << (inner_pos as u64));
        manager.write_u64(id, bits64_pos * 8, new_word);
        let ghost m1w = manager@;
        proof {
            lemma_put_get_u64(m1[j1].data, bits64_pos * 8, new_word, bits64_pos * 8);
            lemma_update_slot(m1, d, j1, m1w[j1]);
            assert(holders_of(m1, id as int) > 0);
        }
        manager.release(id);
        proof {
            lemma_slot_of(m1w, j1);
            lemma_update_slot(m1w, d, j1, manager@[j1]);
            assert(logical(m1w, d)[id as int] == m1w[j1].data);
            assert(logical(manager@, d) =~= logical(m1w, d));
            assert(logical(manager@, d) =~= clear_bit(l0, start, bit as int));
            lemma_room_kept(ma, manager@, id as int);
        }
    }
}

} // verus!
