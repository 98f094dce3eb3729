//! A bounded write-back block cache.
//!
//! Dirty blocks reach the device on eviction, explicit synchronization, or when the
//! cache hands its device back. Until then, the device may contain stale data.
//!
//! The cache's view is the disk as the filesystem sees it: each resident block's
//! cached bytes, every other block's bytes on the device.

use vstd::prelude::*;

use crate::blockdev::{blocks_sized, spec_count_up, BlockDevice, BLOCK_SIZE};
use crate::layout::splice;

verus! {

/// What `modify` writes, a `read` of the same bytes gives back; the rest of that
/// block and every other block read as before.
pub proof fn lemma_read_after_modify(view: Seq<Seq<u8>>, block: int, offset: int, bytes: Seq<u8>)
    requires
        0 <= block < view.len(),
        0 <= offset,
        offset + bytes.len() <= view[block].len(),
    ensures
        view.update(block, splice(view[block], offset, bytes))[block].subrange(offset, offset + bytes.len())
            == bytes,
        forall|p: int|
            0 <= p < view[block].len() && !(offset <= p < offset + bytes.len()) ==> #[trigger] view.update(
                block,
                splice(view[block], offset, bytes),
            )[block][p] == view[block][p],
        forall|i: int|
            0 <= i < view.len() && i != block ==> #[trigger] view.update(block, splice(view[block], offset, bytes))[i]
                == view[i],
{
    assert(view.update(block, splice(view[block], offset, bytes))[block].subrange(offset, offset + bytes.len())
        =~= bytes);
}

/// Most blocks held at once.
pub const CACHE_CAPACITY: usize = 32;

/// `n` counted up `k` times.
pub open spec fn spec_count_up_by(n: nat, k: nat) -> nat
    decreases k,
{
    if k == 0 {
        n
    } else {
        spec_count_up(spec_count_up_by(n, (k - 1) as nat))
    }
}

/// One cached block.
pub struct BlockCache {
    block_id: usize,
    data: Vec<u8>,
    dirty: bool,
}

impl BlockCache {
    pub closed spec fn spec_block_id(&self) -> nat {
        self.block_id as nat
    }

    pub closed spec fn spec_data(&self) -> Seq<u8> {
        self.data@
    }

    pub closed spec fn spec_dirty(&self) -> bool {
        self.dirty
    }

    /// Copy block `block_id` in from `device`, clean.
    fn load<D: BlockDevice>(block_id: usize, device: &D) -> (r: BlockCache)
        requires
            device.inv(),
            block_id < device.spec_blocks().len(),
        ensures
            r.spec_block_id() == block_id,
            r.spec_data() == device.spec_blocks()[block_id as int],
            !r.spec_dirty(),
    {
        let mut data: Vec<u8> = vec![0u8; BLOCK_SIZE];
        device.read_block(block_id, data.as_mut_slice());
        BlockCache { block_id, data, dirty: false }
    }

    /// The `len` bytes at `offset`.
    pub fn read(&self, offset: usize, len: usize) -> (r: Vec<u8>)
        requires
            offset + len <= self.spec_data().len(),
        ensures
            r@ == self.spec_data().subrange(offset as int, offset + len),
    {
        let total = self.data.len();
        let mut out: Vec<u8> = Vec::new();
        let mut i: usize = 0;
        while i < len
            invariant
                i <= len,
                total == self.data@.len(),
                offset + len <= self.data@.len(),
                out@ == self.data@.subrange(offset as int, offset + i),
            decreases len - i,
        {
            out.push(self.data[offset + i]);
            i = i + 1;
            assert(out@ =~= self.data@.subrange(offset as int, offset + i));
        }
        out
    }

    /// Overwrite the bytes at `offset` with `bytes` and mark the block dirty.
    pub fn modify(&mut self, offset: usize, bytes: &[u8])
        requires
            offset + bytes@.len() <= old(self).spec_data().len(),
        ensures
            final(self).spec_block_id() == old(self).spec_block_id(),
            final(self).spec_data() == splice(old(self).spec_data(), offset as int, bytes@),
            final(self).spec_dirty(),
    {
        let n = bytes.len();
        let total = self.data.len();
        let mut i: usize = 0;
        while i < n
            invariant
                i <= n,
                total == self.data@.len(),
                n == bytes@.len(),
                offset + n <= self.data@.len(),
                self.data@.len() == old(self).data@.len(),
                self.block_id == old(self).block_id,
                forall|j: int|
                    0 <= j < self.data@.len() ==> #[trigger] self.data@[j] == if offset <= j
                        < offset + i {
                        bytes@[j - offset]
                    } else {
                        old(self).data@[j]
                    },
            decreases n - i,
        {
            self.data.set(offset + i, bytes[i]);
            i = i + 1;
        }
        self.dirty = true;
        assert(self.data@ =~= splice(old(self).data@, offset as int, bytes@));
    }

    /// Write this block to `device` if it is dirty.
    pub fn sync<D: BlockDevice>(&mut self, device: &mut D)
        requires
            old(device).inv(),
            old(self).spec_block_id() < old(device).spec_blocks().len(),
            old(self).spec_data().len() == BLOCK_SIZE,
        ensures
            final(device).inv(),
            final(self).spec_block_id() == old(self).spec_block_id(),
            final(self).spec_data() == old(self).spec_data(),
            !final(self).spec_dirty(),
            old(self).spec_dirty() ==> final(device).spec_blocks() == old(device).spec_blocks().update(
                old(self).spec_block_id() as int,
                old(self).spec_data(),
            ) && final(device).spec_writes() == spec_count_up(old(device).spec_writes()),
            !old(self).spec_dirty() ==> *final(device) == *old(device),
    {
        if self.dirty {
            device.write_block(self.block_id, self.data.as_slice());
            self.dirty = false;
        }
    }
}

/// Blocks of `slots` that hold unwritten changes.
pub open spec fn spec_dirty_count(slots: Seq<BlockCache>) -> nat
    decreases slots.len(),
{
    if slots.len() == 0 {
        0
    } else {
        spec_dirty_count(slots.drop_last()) + if slots.last().spec_dirty() {
            1nat
        } else {
            0nat
        }
    }
}

/// Block `id` has a slot among `slots`.
pub open spec fn is_resident(slots: Seq<BlockCache>, id: int) -> bool {
    exists|k: int| 0 <= k < slots.len() && #[trigger] slots[k].spec_block_id() == id
}

/// A bounded, write-back cache over one block device.
pub struct BlockCacheManager<D> {
    device: D,
    resident: Vec<BlockCache>,
    disk: Ghost<Seq<Seq<u8>>>,
}

impl<D: BlockDevice> BlockCacheManager<D> {
    /// The disk as seen through the cache.
    pub closed spec fn view(&self) -> Seq<Seq<u8>> {
        self.disk@
    }

    /// The device under the cache.
    pub closed spec fn spec_device(&self) -> D {
        self.device
    }

    /// The blocks held, oldest first.
    pub closed spec fn spec_resident(&self) -> Seq<BlockCache> {
        self.resident@
    }

    pub closed spec fn inv(&self) -> bool {
        let dev = self.device.spec_blocks();
        let res = self.resident@;
        &&& self.device.inv()
        &&& blocks_sized(dev)
        &&& self.disk@.len() == dev.len()
        &&& dev.len() <= usize::MAX
        &&& blocks_sized(self.disk@)
        &&& res.len() <= CACHE_CAPACITY
        &&& forall|k: int|
            #![trigger res[k]]
            0 <= k < res.len() ==> {
                &&& res[k].block_id < dev.len()
                &&& res[k].data@.len() == BLOCK_SIZE
                &&& self.disk@[res[k].block_id as int] == res[k].data@
                &&& !res[k].dirty ==> dev[res[k].block_id as int] == res[k].data@
            }
        &&& forall|k1: int, k2: int|
            0 <= k1 < res.len() && 0 <= k2 < res.len() && k1 != k2 ==> #[trigger] res[k1].block_id
                != #[trigger] res[k2].block_id
        &&& forall|i: int|
            0 <= i < dev.len() && !is_resident(res, i) ==> #[trigger] self.disk@[i] == dev[i]
    }

    /// A consistent cache shows a disk of whole blocks that fits in memory.
    pub proof fn lemma_view_sized(&self)
        requires
            self.inv(),
        ensures
            blocks_sized(self.view()),
            self.view().len() <= usize::MAX,
    {
    }

    /// An empty cache over `device`.
    pub fn new(device: D) -> (r: Self)
        requires
            device.inv(),
            blocks_sized(device.spec_blocks()),
            device.spec_blocks().len() <= usize::MAX,
        ensures
            r.inv(),
            r.view() == device.spec_blocks(),
            r.spec_device() == device,
            r.spec_resident().len() == 0,
    {
        let ghost disk = device.spec_blocks();
        BlockCacheManager { device, resident: Vec::new(), disk: Ghost(disk) }
    }

    /// Number of blocks on the device.
    pub fn block_count(&self) -> (r: usize)
        requires
            self.inv(),
        ensures
            r == self.view().len(),
    {
        self.device.block_count()
    }

    /// The device under the cache; it may lag behind the cache until a sync.
    pub fn device(&self) -> (r: &D)
        ensures
            *r == self.spec_device(),
    {
        &self.device
    }

    /// Write back every dirty block, then hand the device back.
    pub fn into_device(self) -> (r: D)
        requires
            self.inv(),
        ensures
            r.inv(),
            r.spec_blocks() == self.view(),
    {
        let mut this = self;
        this.sync_all();
        this.device
    }

    /// Slot holding `block_id`, if resident.
    fn find(&self, block_id: usize) -> (r: Option<usize>)
        requires
            self.inv(),
        ensures
            match r {
                Some(k) => k < self.resident@.len() && self.resident@[k as int].block_id == block_id,
                None => !is_resident(self.resident@, block_id as int),
            },
    {
        let mut k: usize = 0;
        while k < self.resident.len()
            invariant
                k <= self.resident@.len(),
                forall|j: int| 0 <= j < k ==> #[trigger] self.resident@[j].block_id != block_id,
            decreases self.resident@.len() - k,
        {
            if self.resident[k].block_id == block_id {
                return Some(k);
            }
            k = k + 1;
        }
        None
    }

    /// Make `block_id` resident, evicting the oldest block when full, and return its
    /// slot. The view never changes; the device changes only when the evicted block
    /// was dirty, and then by that block's write.
    fn load(&mut self, block_id: usize) -> (k: usize)
        requires
            old(self).inv(),
            block_id < old(self).view().len(),
        ensures
            final(self).inv(),
            final(self).view() == old(self).view(),
            k < final(self).resident@.len(),
            final(self).resident@[k as int].block_id == block_id,
            final(self).spec_device() == old(self).spec_device() || (old(self).resident@.len()
                == CACHE_CAPACITY && old(self).resident@[0].dirty && final(self).spec_device().spec_blocks() == old(self).spec_device().spec_blocks().update(
                old(self).resident@[0].block_id as int,
                old(self).resident@[0].data@,
            ) && final(self).spec_device().spec_writes() == spec_count_up(
                old(self).spec_device().spec_writes(),
            )),
            is_resident(old(self).resident@, block_id as int) ==> final(self).spec_device()
                == old(self).spec_device(),
    {
        match self.find(block_id) {
            Some(k) => {
                return k;
            },
            None => {},
        }
        if self.resident.len() >= CACHE_CAPACITY {
            let mut victim = self.resident.remove(0);
            let ghost removed = victim;
            victim.sync(&mut self.device);
            proof {
                let res = self.resident@;
                let old_res = old(self).resident@;
                assert forall|k: int| 0 <= k < res.len() implies #[trigger] res[k] == old_res[k + 1] by {}
                assert forall|i: int|
                    0 <= i < self.device.spec_blocks().len() && !is_resident(res, i) implies #[trigger] self.disk@[i]
                        == self.device.spec_blocks()[i] by {
                    if i == removed.block_id {
                    } else if is_resident(old_res, i) {
                        let k = choose|k: int| 0 <= k < old_res.len() && #[trigger] old_res[k].spec_block_id() == i;
                        assert(k != 0);
                        assert(res[k - 1].spec_block_id() == i);
                    }
                }
                assert forall|k: int| 0 <= k < res.len() implies #[trigger] res[k].block_id != removed.block_id by {
                    assert(old_res[k + 1] == res[k]);
                }
                assert forall|k: int| 0 <= k < res.len() implies #[trigger] res[k].spec_block_id() != block_id by {
                    assert(old_res[k + 1] == res[k]);
                    assert(old_res[k + 1].spec_block_id() != block_id);
                }
                assert forall|k1: int, k2: int|
                    0 <= k1 < res.len() && 0 <= k2 < res.len() && k1 != k2 implies #[trigger] res[k1].block_id
                        != #[trigger] res[k2].block_id by {
                    assert(old_res[k1 + 1] == res[k1] && old_res[k2 + 1] == res[k2]);
                }
            }
        }
        let slot = BlockCache::load(block_id, &self.device);
        let ghost before = self.resident@;
        self.resident.push(slot);
        proof {
            let res = self.resident@;
            assert forall|i: int|
                0 <= i < self.device.spec_blocks().len() && !is_resident(res, i) implies #[trigger] self.disk@[i]
                    == self.device.spec_blocks()[i] by {
                if is_resident(before, i) {
                    let k = choose|k: int| 0 <= k < before.len() && #[trigger] before[k].spec_block_id() == i;
                    assert(res[k] == before[k]);
                }
            }
            assert(!is_resident(before, block_id as int) ==> self.disk@[block_id as int]
                == self.device.spec_blocks()[block_id as int]);
            let dev = self.device.spec_blocks();
            assert(self.device.inv());
            assert(blocks_sized(dev));
            assert(self.disk@.len() == dev.len());
            assert(res.len() <= CACHE_CAPACITY);
            assert(forall|k: int|
                #![trigger res[k]]
                0 <= k < res.len() ==> {
                    &&& res[k].block_id < dev.len()
                    &&& res[k].data@.len() == BLOCK_SIZE
                    &&& self.disk@[res[k].block_id as int] == res[k].data@
                    &&& !res[k].dirty ==> dev[res[k].block_id as int] == res[k].data@
                });
            assert forall|k: int| 0 <= k < before.len() implies #[trigger] before[k].block_id != block_id by {
                assert(before[k].spec_block_id() != block_id);
            }
            assert forall|k1: int, k2: int|
                0 <= k1 < res.len() && 0 <= k2 < res.len() && k1 != k2 implies #[trigger] res[k1].block_id
                    != #[trigger] res[k2].block_id by {
                if k1 < before.len() && k2 < before.len() {
                    assert(before[k1] == res[k1] && before[k2] == res[k2]);
                }
            }
        }
        self.resident.len() - 1
    }

    /// The `len` bytes of block `block_id` at `offset`, as the cache sees them.
    pub fn read(&mut self, block_id: usize, offset: usize, len: usize) -> (r: Vec<u8>)
        requires
            old(self).inv(),
            block_id < old(self).view().len(),
            offset + len <= BLOCK_SIZE,
        ensures
            final(self).inv(),
            final(self).view() == old(self).view(),
            r@ == old(self).view()[block_id as int].subrange(offset as int, offset + len),
            final(self).spec_device() == old(self).spec_device() || (old(self).spec_resident().len()
                == CACHE_CAPACITY && old(self).spec_resident()[0].spec_dirty()
                && final(self).spec_device().spec_blocks() == old(self).spec_device().spec_blocks().update(
                old(self).spec_resident()[0].spec_block_id() as int,
                old(self).spec_resident()[0].spec_data(),
            ) && final(self).spec_device().spec_writes() == spec_count_up(
                old(self).spec_device().spec_writes(),
            )),
            is_resident(old(self).spec_resident(), block_id as int) ==> final(self).spec_device()
                == old(self).spec_device(),
    {
        let k = self.load(block_id);
        self.resident[k].read(offset, len)
    }

    /// Overwrite the bytes of block `block_id` at `offset` with `bytes`.
    pub fn modify(&mut self, block_id: usize, offset: usize, bytes: &[u8])
        requires
            old(self).inv(),
            block_id < old(self).view().len(),
            offset + bytes@.len() <= BLOCK_SIZE,
        ensures
            final(self).inv(),
            final(self).view() == old(self).view().update(
                block_id as int,
                splice(old(self).view()[block_id as int], offset as int, bytes@),
            ),
            final(self).spec_device() == old(self).spec_device() || (old(self).spec_resident().len()
                == CACHE_CAPACITY && old(self).spec_resident()[0].spec_dirty()
                && final(self).spec_device().spec_blocks() == old(self).spec_device().spec_blocks().update(
                old(self).spec_resident()[0].spec_block_id() as int,
                old(self).spec_resident()[0].spec_data(),
            ) && final(self).spec_device().spec_writes() == spec_count_up(
                old(self).spec_device().spec_writes(),
            )),
            is_resident(old(self).spec_resident(), block_id as int) ==> final(self).spec_device()
                == old(self).spec_device(),
    {
        let k = self.load(block_id);
        let ghost mid = self.resident@;
        let mut slot = self.resident.remove(k);
        slot.modify(offset, bytes);
        self.resident.insert(k, slot);
        proof {
            let new_block = splice(old(self).view()[block_id as int], offset as int, bytes@);
            self.disk@ = self.disk@.update(block_id as int, new_block);
            let res = self.resident@;
            assert forall|j: int| 0 <= j < res.len() && j != k implies #[trigger] res[j] == mid[j] by {}
            assert forall|i: int|
                0 <= i < self.device.spec_blocks().len() && !is_resident(res, i) implies #[trigger] self.disk@[i]
                    == self.device.spec_blocks()[i] by {
                if is_resident(mid, i) {
                    let j = choose|j: int| 0 <= j < mid.len() && #[trigger] mid[j].spec_block_id() == i;
                    assert(res[j].spec_block_id() == i);
                }
            }
        }
    }

    /// Flush every dirty resident block to the device.
    pub fn sync_all(&mut self)
        requires
            old(self).inv(),
        ensures
            final(self).inv(),
            final(self).view() == old(self).view(),
            final(self).spec_device().spec_blocks() == old(self).view(),
            final(self).spec_device().spec_writes() == spec_count_up_by(
                old(self).spec_device().spec_writes(),
                spec_dirty_count(old(self).spec_resident()),
            ),
            forall|k: int|
                0 <= k < final(self).spec_resident().len() ==> !#[trigger] final(self).spec_resident()[k].spec_dirty(),
    {
        let n = self.resident.len();
        let mut k: usize = 0;
        while k < n
            invariant
                k <= n,
                n == self.resident@.len(),
                n == old(self).resident@.len(),
                self.inv(),
                self.view() == old(self).view(),
                forall|j: int| 0 <= j < n ==> #[trigger] self.resident@[j].block_id == old(self).resident@[j].block_id,
                forall|j: int| 0 <= j < k ==> !#[trigger] self.resident@[j].dirty,
                forall|j: int| k <= j < n ==> #[trigger] self.resident@[j].dirty == old(self).resident@[j].dirty,
                self.device.spec_writes() == spec_count_up_by(
                    old(self).device.spec_writes(),
                    spec_dirty_count(old(self).resident@.take(k as int)),
                ),
            decreases n - k,
        {
            let ghost before = self.resident@;
            let mut slot = self.resident.remove(k);
            slot.sync(&mut self.device);
            self.resident.insert(k, slot);
            proof {
                let res = self.resident@;
                assert(old(self).resident@.take(k + 1).drop_last() =~= old(self).resident@.take(k as int));
                assert forall|j: int| 0 <= j < n && j != k implies #[trigger] res[j] == before[j] by {}
                assert forall|i: int|
                    0 <= i < self.device.spec_blocks().len() && !is_resident(res, i) implies #[trigger] self.disk@[i]
                        == self.device.spec_blocks()[i] by {
                    if is_resident(before, i) {
                        let j = choose|j: int| 0 <= j < before.len() && #[trigger] before[j].spec_block_id() == i;
                        assert(res[j].spec_block_id() == i);
                    }
                }
                assert forall|j: int| #![trigger res[j]] 0 <= j < n implies {
                    &&& !res[j].dirty ==> self.device.spec_blocks()[res[j].block_id as int] == res[j].data@
                } by {
                    if j != k {
                        assert(res[j].block_id != res[k as int].block_id);
                    }
                }
            }
            k = k + 1;
        }
        proof {
            assert(old(self).resident@.take(n as int) =~= old(self).resident@);
            assert forall|i: int| 0 <= i < self.device.spec_blocks().len() implies #[trigger] self.device.spec_blocks()[i]
                == self.disk@[i] by {
                if is_resident(self.resident@, i) {
                    let j = choose|j: int| 0 <= j < self.resident@.len() && #[trigger] self.resident@[j].spec_block_id() == i;
                }
            }
            assert(self.device.spec_blocks() =~= self.disk@);
        }
    }
}

} // verus!
