//! Fixed-size block storage: the interface a filesystem is written against, and a
//! RAM-backed device that implements it.

use vstd::prelude::*;

verus! {

/// Bytes in one block.
pub const BLOCK_SIZE: usize = 512;

/// Every block of `blocks` holds exactly [`BLOCK_SIZE`] bytes.
pub open spec fn blocks_sized(blocks: Seq<Seq<u8>>) -> bool {
    forall|i: int| 0 <= i < blocks.len() ==> #[trigger] blocks[i].len() == BLOCK_SIZE
}

/// `n + 1`, held at `u64::MAX`.
pub open spec fn spec_count_up(n: nat) -> nat {
    if n < u64::MAX {
        n + 1
    } else {
        n
    }
}

/// A device of numbered, fixed-size blocks.
pub trait BlockDevice {
    /// The contents of the device, block by block.
    spec fn spec_blocks(&self) -> Seq<Seq<u8>>;

    /// How many block writes the device has taken.
    spec fn spec_writes(&self) -> nat;

    /// The device's own consistency.
    spec fn inv(&self) -> bool;

    /// Number of blocks on the device.
    fn block_count(&self) -> (r: usize)
        requires
            self.inv(),
        ensures
            r == self.spec_blocks().len(),
    ;

    /// Copy block `block_id` into `buf`.
    fn read_block(&self, block_id: usize, buf: &mut [u8])
        requires
            self.inv(),
            block_id < self.spec_blocks().len(),
            old(buf)@.len() == BLOCK_SIZE,
        ensures
            final(buf)@ == self.spec_blocks()[block_id as int],
    ;

    /// Overwrite block `block_id` with `buf`.
    fn write_block(&mut self, block_id: usize, buf: &[u8])
        requires
            old(self).inv(),
            block_id < old(self).spec_blocks().len(),
            buf@.len() == BLOCK_SIZE,
        ensures
            final(self).inv(),
            final(self).spec_blocks() == old(self).spec_blocks().update(block_id as int, buf@),
            final(self).spec_writes() == spec_count_up(old(self).spec_writes()),
    ;
}

/// A block device held in memory, which counts the writes it takes.
pub struct RamDisk {
    blocks: Vec<Vec<u8>>,
    writes: u64,
}

impl RamDisk {
    /// A zero-filled disk of `count` blocks.
    pub fn new(count: usize) -> (r: Self)
        ensures
            r.inv(),
            r.spec_blocks().len() == count,
            forall|i: int| 0 <= i < count ==> #[trigger] r.spec_blocks()[i] == Seq::new(
                BLOCK_SIZE as nat,
                |_j: int| 0u8,
            ),
            r.spec_writes() == 0,
    {
        let mut blocks: Vec<Vec<u8>> = Vec::new();
        let mut i: usize = 0;
        while i < count
            invariant
                i <= count,
                blocks@.len() == i,
                forall|k: int| 0 <= k < i ==> #[trigger] blocks@[k]@ == Seq::new(
                    BLOCK_SIZE as nat,
                    |_j: int| 0u8,
                ),
            decreases count - i,
        {
            let block: Vec<u8> = vec![0u8; BLOCK_SIZE];
            assert(block@ == Seq::new(BLOCK_SIZE as nat, |_j: int| 0u8));
            blocks.push(block);
            i = i + 1;
        }
        let r = RamDisk { blocks, writes: 0 };
        assert(r.spec_blocks().len() == count);
        r
    }

    /// Number of block writes taken so far.
    pub fn writes(&self) -> (r: u64)
        ensures
            r == self.spec_writes(),
    {
        self.writes
    }
}

impl BlockDevice for RamDisk {
    closed spec fn spec_blocks(&self) -> Seq<Seq<u8>> {
        self.blocks@.map_values(|b: Vec<u8>| b@)
    }

    closed spec fn spec_writes(&self) -> nat {
        self.writes as nat
    }

    closed spec fn inv(&self) -> bool {
        blocks_sized(self.spec_blocks())
    }

    fn block_count(&self) -> (r: usize) {
        self.blocks.len()
    }

    fn read_block(&self, block_id: usize, buf: &mut [u8]) {
        let src = &self.blocks[block_id];
        assert(src@ == self.spec_blocks()[block_id as int]);
        let mut i: usize = 0;
        while i < buf.len()
            invariant
                i <= buf@.len(),
                buf@.len() == BLOCK_SIZE,
                src@.len() == BLOCK_SIZE,
                block_id < self.spec_blocks().len(),
                src@ == self.spec_blocks()[block_id as int],
                forall|k: int| 0 <= k < i ==> buf@[k] == src@[k],
            decreases buf@.len() - i,
        {
            buf[i] = src[i];
            i = i + 1;
        }
        assert(buf@ =~= src@);
    }

    fn write_block(&mut self, block_id: usize, buf: &[u8]) {
        let mut copy: Vec<u8> = Vec::new();
        let mut i: usize = 0;
        while i < buf.len()
            invariant
                i <= buf@.len(),
                copy@ == buf@.subrange(0, i as int),
            decreases buf@.len() - i,
        {
            copy.push(buf[i]);
            i = i + 1;
        }
        assert(copy@ =~= buf@);
        self.blocks.set(block_id, copy);
        if self.writes < u64::MAX {
            self.writes = self.writes + 1;
        }
        assert(self.spec_blocks() =~= old(self).spec_blocks().update(block_id as int, buf@));
    }
}

} // verus!
