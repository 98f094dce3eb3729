//! Allocation bitmaps.
//!
//! Two regions of the disk — the inode bitmap and the data bitmap — are runs of
//! bits: a set bit means "that object is in use". This type manages one such run.
//! Allocation is "find the lowest clear bit, set it"; freeing is "clear it".
//!
//! Nothing here knows whether a bit stands for an inode or a data block — it
//! returns a plain bit index in `[0, capacity)`, and the caller maps that onto an
//! inode number or a data-block number. Bit `i` of a block is bit `i % 8` of its
//! byte `i / 8`.

use vstd::prelude::*;

use crate::blockdev::{BlockDevice, BLOCK_SIZE};
use crate::cache::BlockCacheManager;
use crate::layout::splice;

verus! {

/// Bits addressable within a single block (`512 * 8 = 4096`).
pub const BITS_PER_BLOCK: usize = BLOCK_SIZE * 8;

/// Bit `b` of `byte`.
pub open spec fn byte_bit(byte: u8, b: int) -> bool {
    (byte >> (b as u8)) & 1u8 == 1u8
}

/// Bit `k` of the bitmap that begins at block `start` of `disk`.
pub open spec fn spec_bit(disk: Seq<Seq<u8>>, start: int, k: int) -> bool {
    byte_bit(disk[start + k / 4096][(k % 4096) / 8], k % 8)
}

/// `disk` with bit `k` of the bitmap at block `start` set to `v`.
pub open spec fn with_bit(disk: Seq<Seq<u8>>, start: int, k: int, v: bool) -> Seq<Seq<u8>> {
    let blk = start + k / 4096;
    let at = (k % 4096) / 8;
    let byte = disk[blk][at];
    let mask = (1u8 << ((k % 8) as u8)) as u8;
    let new_byte = if v {
        (byte | mask) as u8
    } else {
        (byte & !mask) as u8
    };
    disk.update(blk, splice(disk[blk], at, seq![new_byte]))
}

/// Setting or clearing one bit of a byte changes that bit and no other.
proof fn lemma_byte_bits(byte: u8, b: u8, c: u8)
    requires
        b < 8,
        c < 8,
    ensures
        ((byte | (1u8 << b)) >> c) & 1u8 == if b == c { 1u8 } else { (byte >> c) & 1u8 },
        ((byte & !(1u8 << b)) >> c) & 1u8 == if b == c { 0u8 } else { (byte >> c) & 1u8 },
        byte == 0xff ==> (byte >> c) & 1u8 == 1u8,
{
    assert(b < 8 && c < 8 ==> ((byte | (1u8 << b)) >> c) & 1u8 == if b == c { 1u8 } else { (byte >> c) & 1u8 }) by (bit_vector);
    assert(b < 8 && c < 8 ==> ((byte & !(1u8 << b)) >> c) & 1u8 == if b == c { 0u8 } else { (byte >> c) & 1u8 }) by (bit_vector);
    assert(c < 8 && byte == 0xff ==> (byte >> c) & 1u8 == 1u8) by (bit_vector);
}

/// Writing one bit leaves every other bit of the bitmap, and every other block, alone.
pub proof fn lemma_with_bit(disk: Seq<Seq<u8>>, start: int, k: int, v: bool, j: int, blocks: int)
    requires
        0 <= start,
        start + blocks <= disk.len(),
        0 <= k < blocks * 4096,
        0 <= j < blocks * 4096,
        forall|i: int| 0 <= i < disk.len() ==> #[trigger] disk[i].len() == BLOCK_SIZE,
    ensures
        with_bit(disk, start, k, v).len() == disk.len(),
        spec_bit(with_bit(disk, start, k, v), start, j) == if j == k { v } else { spec_bit(disk, start, j) },
        forall|i: int| 0 <= i < disk.len() && i != start + k / 4096 ==> #[trigger] with_bit(disk, start, k, v)[i] == disk[i],
        with_bit(disk, start, k, v)[start + k / 4096].len() == BLOCK_SIZE,
{
    let d2 = with_bit(disk, start, k, v);
    let blk = start + k / 4096;
    let at = (k % 4096) / 8;
    let byte = disk[blk][at];
    let b = (k % 8) as u8;
    let c = (j % 8) as u8;
    lemma_byte_bits(byte, b, c);
    let jb = start + j / 4096;
    let jat = (j % 4096) / 8;
    if jb == blk && jat == at {
        if j != k {
            assert(j % 8 != k % 8) by {
                assert(j == (j / 4096) * 4096 + ((j % 4096) / 8) * 8 + j % 8);
                assert(k == (k / 4096) * 4096 + ((k % 4096) / 8) * 8 + k % 8);
            }
        }
    }
}

/// Freeing a bit that allocating just set restores the disk as it was.
pub proof fn lemma_bit_roundtrip(d: Seq<Seq<u8>>, start: int, k: int, blocks: int)
    requires
        0 <= start,
        start + blocks <= d.len(),
        0 <= k < blocks * 4096,
        forall|i: int| 0 <= i < d.len() ==> #[trigger] d[i].len() == BLOCK_SIZE,
        !spec_bit(d, start, k),
    ensures
        with_bit(with_bit(d, start, k, true), start, k, false) == d,
{
    let blk = start + k / 4096;
    let at = (k % 4096) / 8;
    let byte = d[blk][at];
    let b = (k % 8) as u8;
    lemma_with_bit(d, start, k, true, k, blocks);
    let d1 = with_bit(d, start, k, true);
    let d2 = with_bit(d1, start, k, false);
    assert(d1[blk][at] == (byte | (1u8 << b)) as u8);
    assert((byte >> b) & 1u8 != 1u8 && b < 8 ==> ((byte | (1u8 << b)) & !(1u8 << b)) == byte) by (bit_vector);
    assert(d2[blk] =~= d[blk]);
    assert(d2 =~= d);
}

/// A bitmap occupying `blocks` consecutive blocks starting at `start_block`.
pub struct Bitmap {
    start_block: usize,
    blocks: usize,
}

impl Bitmap {
    pub closed spec fn spec_start(&self) -> int {
        self.start_block as int
    }

    pub closed spec fn spec_blocks(&self) -> int {
        self.blocks as int
    }

    /// Greatest number of objects this bitmap can track.
    pub open spec fn spec_capacity(&self) -> int {
        self.spec_blocks() * 4096
    }

    /// The bitmap lies on the disk `disk`, whose blocks are all full-sized.
    pub open spec fn fits(&self, disk: Seq<Seq<u8>>) -> bool {
        &&& self.spec_start() + self.spec_blocks() <= disk.len()
        &&& disk.len() <= usize::MAX
        &&& self.spec_capacity() <= usize::MAX
        &&& forall|i: int| 0 <= i < disk.len() ==> #[trigger] disk[i].len() == BLOCK_SIZE
    }

    /// A bitmap over the block range `[start_block, start_block + blocks)`.
    pub fn new(start_block: usize, blocks: usize) -> (r: Bitmap)
        ensures
            r.spec_start() == start_block,
            r.spec_blocks() == blocks,
    {
        Bitmap { start_block, blocks }
    }

    /// Greatest number of objects this bitmap can track.
    pub fn capacity(&self) -> (r: usize)
        requires
            self.spec_capacity() <= usize::MAX,
        ensures
            r == self.spec_capacity(),
    {
        self.blocks * BITS_PER_BLOCK
    }

    /// Split a bit index into (block within the bitmap, word within block, bit).
    pub fn locate(&self, index: usize) -> (r: (usize, usize, usize))
        requires
            index < self.spec_capacity(),
        ensures
            r.0 == index / 4096,
            r.1 == (index % 4096) / 64,
            r.2 == index % 64,
            r.0 < self.spec_blocks(),
    {
        let block = index / BITS_PER_BLOCK;
        let within = index % BITS_PER_BLOCK;
        proof {
            assert(index / 4096 < self.blocks) by (nonlinear_arith)
                requires
                    index < self.blocks * 4096,
            ;
            assert(index % 64 == (index % 4096) % 64) by (nonlinear_arith);
        }
        (block, within / 64, within % 64)
    }

    /// Allocate the lowest free bit and return its index, or `None` if full.
    pub fn allocate<D: BlockDevice>(&self, cache: &mut BlockCacheManager<D>) -> (r: Option<usize>)
        requires
            old(cache).inv(),
            self.fits(old(cache).view()),
        ensures
            final(cache).inv(),
            match r {
                Some(k) => {
                    &&& k < self.spec_capacity()
                    &&& !spec_bit(old(cache).view(), self.spec_start(), k as int)
                    &&& forall|j: int| 0 <= j < k ==> spec_bit(old(cache).view(), self.spec_start(), j)
                    &&& final(cache).view() == with_bit(old(cache).view(), self.spec_start(), k as int, true)
                },
                None => {
                    &&& forall|j: int| 0 <= j < self.spec_capacity() ==> spec_bit(old(cache).view(), self.spec_start(), j)
                    &&& final(cache).view() == old(cache).view()
                },
            },
    {
        let ghost disk = cache.view();
        let ghost start = self.start_block as int;
        let mut block: usize = 0;
        while block < self.blocks
            invariant
                cache.inv(),
                cache.view() == disk,
                disk == old(cache).view(),
                self.fits(disk),
                start == self.spec_start(),
                block <= self.blocks,
                forall|j: int| 0 <= j < block * 4096 ==> spec_bit(disk, start, j),
            decreases self.blocks - block,
        {
            let id = self.start_block + block;
            let data = cache.read(id, 0, BLOCK_SIZE);
            assert(data@ =~= disk[id as int]);
            let mut at: usize = 0;
            while at < BLOCK_SIZE
                invariant
                    cache.inv(),
                    cache.view() == disk,
                    disk == old(cache).view(),
                    self.fits(disk),
                    start == self.spec_start(),
                    block < self.blocks,
                    id == start + block,
                    data@ == disk[id as int],
                    at <= BLOCK_SIZE,
                    forall|j: int| 0 <= j < block * 4096 + at * 8 ==> spec_bit(disk, start, j),
                decreases BLOCK_SIZE - at,
            {
                let byte = data[at];
                if byte != 0xff {
                    let mut b: u8 = 0;
                    while b < 8 && (byte >> b) & 1u8 == 1u8
                        invariant
                            b <= 8,
                            byte != 0xff,
                            forall|c: int| 0 <= c < b ==> byte_bit(byte, c),
                        decreases 8 - b,
                    {
                        b = b + 1;
                    }
                    if b == 8 {
                        proof {
                            assert(forall|c: u8| c < 8 ==> (byte >> c) & 1u8 == 1u8 ==> byte_bit(byte, c as int));
                            assert(byte_bit(byte, 0) && byte_bit(byte, 1) && byte_bit(byte, 2) && byte_bit(byte, 3)
                                && byte_bit(byte, 4) && byte_bit(byte, 5) && byte_bit(byte, 6) && byte_bit(byte, 7));
                            assert((byte >> 0u8) & 1u8 == 1u8 && (byte >> 1u8) & 1u8 == 1u8 && (byte >> 2u8) & 1u8 == 1u8
                                && (byte >> 3u8) & 1u8 == 1u8 && (byte >> 4u8) & 1u8 == 1u8 && (byte >> 5u8) & 1u8 == 1u8
                                && (byte >> 6u8) & 1u8 == 1u8 && (byte >> 7u8) & 1u8 == 1u8 ==> byte == 0xff) by (bit_vector);
                        }
                        assert(false);
                    }
                    let k = block * BITS_PER_BLOCK + at * 8 + (b as usize);
                    let new_byte: u8 = byte | (1u8 << b);
                    let ghost kk = k as int;
                    proof {
                        assert(kk / 4096 == block as int);
                        assert((kk % 4096) / 8 == at as int);
                        assert(kk % 8 == b as int);
                        assert forall|j: int| 0 <= j < kk implies spec_bit(disk, start, j) by {
                            if j >= block * 4096 + at * 8 {
                                assert(j / 4096 == block as int);
                                assert((j % 4096) / 8 == at as int);
                                assert(j % 8 < b);
                            }
                        }
                        assert(!byte_bit(byte, b as int));
                        assert(block * 4096 + at * 8 + 8 <= self.spec_capacity()) by (nonlinear_arith)
                            requires block < self.blocks, at < 512;
                    }
                    let one = [new_byte];
                    assert(one@ =~= seq![new_byte]);
                    cache.modify(id, at, &one);
                    proof {
                        assert(disk[id as int][at as int] == byte);
                        assert(new_byte == (byte | (1u8 << ((kk % 8) as u8))) as u8);
                        assert(cache.view() =~= with_bit(disk, start, kk, true));
                    }
                    return Some(k);
                }
                proof {
                    assert forall|j: int| 0 <= j < block * 4096 + (at + 1) * 8 implies spec_bit(disk, start, j) by {
                        if j >= block * 4096 + at * 8 {
                            assert(j / 4096 == block as int);
                            assert((j % 4096) / 8 == at as int);
                            lemma_byte_bits(byte, 0, (j % 8) as u8);
                        }
                    }
                }
                at = at + 1;
            }
            block = block + 1;
        }
        None
    }

    /// Free bit `index`, which must be set.
    pub fn dealloc<D: BlockDevice>(&self, cache: &mut BlockCacheManager<D>, index: usize)
        requires
            old(cache).inv(),
            self.fits(old(cache).view()),
            index < self.spec_capacity(),
            spec_bit(old(cache).view(), self.spec_start(), index as int),
        ensures
            final(cache).inv(),
            final(cache).view() == with_bit(old(cache).view(), self.spec_start(), index as int, false),
    {
        let (block, _word, _bit) = self.locate(index);
        let id = self.start_block + block;
        let at = (index % BITS_PER_BLOCK) / 8;
        let b = (index % 8) as u8;
        let cur = cache.read(id, at, 1);
        let byte = cur[0];
        let new_byte: u8 = byte & !(1u8 << b);
        let one = [new_byte];
        assert(one@ =~= seq![new_byte]);
        cache.modify(id, at, &one);
        proof {
            assert(index / 4096 == block as int);
            assert(id == self.spec_start() + index / 4096);
            assert(byte == old(cache).view()[id as int][at as int]);
            assert(new_byte == (byte & !(1u8 << ((index % 8) as u8))) as u8);
            assert(cache.view() =~= with_bit(old(cache).view(), self.spec_start(), index as int, false));
        }
    }

    /// Whether bit `index` is currently set.
    pub fn is_allocated<D: BlockDevice>(&self, cache: &mut BlockCacheManager<D>, index: usize) -> (r: bool)
        requires
            old(cache).inv(),
            self.fits(old(cache).view()),
            index < self.spec_capacity(),
        ensures
            final(cache).inv(),
            final(cache).view() == old(cache).view(),
            r == spec_bit(old(cache).view(), self.spec_start(), index as int),
    {
        let (block, _word, _bit) = self.locate(index);
        let id = self.start_block + block;
        let at = (index % BITS_PER_BLOCK) / 8;
        let b = (index % 8) as u8;
        let cur = cache.read(id, at, 1);
        (cur[0] >> b) & 1u8 == 1u8
    }
}

} // verus!
