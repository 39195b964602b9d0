//! The storage medium that the cache reads and writes whole blocks of.
use vstd::prelude::*;

use crate::BLOCK_SZ;

verus! {

/// A medium is well formed when every block holds exactly `BLOCK_SZ` bytes.
pub open spec fn blocks_wf(blocks: Seq<Seq<u8>>) -> bool {
    forall|i: int| 0 <= i < blocks.len() ==> #[trigger] blocks[i].len() == BLOCK_SZ
}

/// A block-addressed storage medium.
pub trait BlockDevice {
    /// The contents of the medium, one sequence of bytes per block id.
    spec fn blocks(&self) -> Seq<Seq<u8>>;

    /// Copies block `block_id` into `buf`.
    fn read_block(&self, block_id: usize, buf: &mut [u8])
        requires
            block_id < self.blocks().len(),
            old(buf)@.len() == self.blocks()[block_id as int].len(),
        ensures
            final(buf)@ == self.blocks()[block_id as int],
    ;

    /// Replaces block `block_id` by the contents of `buf`.
    fn write_block(&mut self, block_id: usize, buf: &[u8])
        requires
            block_id < old(self).blocks().len(),
            buf@.len() == BLOCK_SZ,
        ensures
            final(self).blocks() == old(self).blocks().update(block_id as int, buf@),
    ;
}

/// A medium held in memory, every block zeroed at creation.
pub struct RamDisk {
    data: Vec<Vec<u8>>,
}

impl RamDisk {
    pub closed spec fn spec_blocks(&self) -> Seq<Seq<u8>> {
        Seq::new(self.data@.len(), |i: int| self.data@[i]@)
    }

    /// A zeroed medium of `n` blocks.
    pub fn new(n: usize) -> (r: Self)
        ensures
            r.blocks().len() == n,
            forall|i: int| 0 <= i < n ==> #[trigger] r.blocks()[i] == Seq::new(BLOCK_SZ as nat, |k: int| 0u8),
    {
        let mut data: Vec<Vec<u8>> = Vec::new();
        let mut i: usize = 0;
        while i < n
            invariant
                i <= n,
                data@.len() == i,
                forall|j: int| 0 <= j < i ==> #[trigger] data@[j]@ == Seq::new(BLOCK_SZ as nat, |k: int| 0u8),
            decreases n - i,
        {
            let block = zeroed_block();
            data.push(block);
            i = i + 1;
        }
        let r = RamDisk { data };
        assert(r.blocks().len() == n);
        r
    }

    /// Number of blocks of the medium.
    pub fn num_blocks(&self) -> (r: usize)
        ensures
            r == self.blocks().len(),
    {
        self.data.len()
    }
}

/// A block of `BLOCK_SZ` zero bytes.
pub fn zeroed_block() -> (r: Vec<u8>)
    ensures
        r@ == Seq::new(BLOCK_SZ as nat, |k: int| 0u8),
{
    let mut v: Vec<u8> = Vec::new();
    let mut i: usize = 0;
    while i < BLOCK_SZ
        invariant
            i <= BLOCK_SZ,
            v@ == Seq::new(i as nat, |k: int| 0u8),
        decreases BLOCK_SZ - i,
    {
        v.push(0u8);
        i = i + 1;
        assert(v@ =~= Seq::new(i as nat, |k: int| 0u8));
    }
    v
}

impl BlockDevice for RamDisk {
    open spec fn blocks(&self) -> Seq<Seq<u8>> {
        self.spec_blocks()
    }

    fn read_block(&self, block_id: usize, buf: &mut [u8]) {
        let src = &self.data[block_id];
        let n = buf.len();
        let mut k: usize = 0;
        while k < n
            invariant
                k <= n,
                n == buf@.len(),
                n == src@.len(),
                src@ == self.blocks()[block_id as int],
                forall|j: int| 0 <= j < k ==> buf@[j] == src@[j],
            decreases n - k,
        {
            buf[k] = src[k];
            k = k + 1;
        }
        assert(buf@ =~= src@);
    }

    fn write_block(&mut self, block_id: usize, buf: &[u8]) {
        let mut v: Vec<u8> = Vec::new();
        let mut k: usize = 0;
        while k < buf.len()
            invariant
                k <= buf@.len(),
                v@ == buf@.subrange(0, k as int),
            decreases buf@.len() - k,
        {
            v.push(buf[k]);
            k = k + 1;
            assert(v@ =~= buf@.subrange(0, k as int));
        }
        assert(v@ =~= buf@);
        self.data.set(block_id, v);
        assert(self.blocks() =~= old(self).blocks().update(block_id as int, buf@));
    }
}

} // verus!
