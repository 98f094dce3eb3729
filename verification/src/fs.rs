//! Filesystem mounting, allocation, and inode block mapping.
//!
//! A file's bytes live in data blocks that its inode reaches directly, through a
//! single-indirect pointer block, or through a double-indirect block of pointer
//! blocks. The filesystem keeps every block it reaches from a live inode in use in
//! the data bitmap, reaches each such block from exactly one place, and keeps the
//! bytes past a file's end zero, so that holes and regrown ranges read as zeros.

use vstd::prelude::*;

use crate::bitmap::{byte_bit, lemma_bit_roundtrip, lemma_with_bit, spec_bit, with_bit, Bitmap, BITS_PER_BLOCK};
use crate::blockdev::{blocks_sized, BlockDevice, BLOCK_SIZE};
use crate::cache::BlockCacheManager;
use crate::layout::{
    get_le32, lemma_le32_frame, lemma_le32_roundtrip, put_le32, spec_le32, spec_le32_bytes, splice,
    DiskInode, InodeType, SuperBlock,
    DIRECT_COUNT, FS_MAGIC, INODES_PER_BLOCK, INODE_SIZE, MAX_FILE_BLOCKS, MAX_FILE_SIZE, POINTERS_PER_BLOCK,
    ROOT_INODE, SUPERBLOCK_SIZE,
};

verus! {

/// Where the `inner`-th block of a file is reached from.
#[derive(Clone, Copy, Debug, PartialEq, Eq, Structural)]
pub enum BlockSlot {
    Direct(usize),
    SingleIndirect(usize),
    DoubleIndirect { l1: usize, l2: usize },
}

/// The slot that block `inner` of a file occupies.
pub open spec fn spec_locate_block(inner: int) -> BlockSlot {
    if inner < DIRECT_COUNT {
        BlockSlot::Direct(inner as usize)
    } else if inner < DIRECT_COUNT + POINTERS_PER_BLOCK {
        BlockSlot::SingleIndirect((inner - DIRECT_COUNT) as usize)
    } else {
        let r = inner - DIRECT_COUNT - POINTERS_PER_BLOCK;
        BlockSlot::DoubleIndirect {
            l1: (r / POINTERS_PER_BLOCK as int) as usize,
            l2: (r % POINTERS_PER_BLOCK as int) as usize,
        }
    }
}

/// Map a file's block index onto the pointer that reaches it.
pub fn locate_block(inner: usize) -> (r: BlockSlot)
    ensures
        r == spec_locate_block(inner as int),
{
    if inner < DIRECT_COUNT {
        return BlockSlot::Direct(inner);
    }
    let inner = inner - DIRECT_COUNT;
    if inner < POINTERS_PER_BLOCK {
        return BlockSlot::SingleIndirect(inner);
    }
    let inner = inner - POINTERS_PER_BLOCK;
    BlockSlot::DoubleIndirect { l1: inner / POINTERS_PER_BLOCK, l2: inner % POINTERS_PER_BLOCK }
}

/// A place in an inode's block tree that can hold a block.
#[derive(Clone, Copy, Debug, PartialEq, Eq, Structural)]
pub enum Slot {
    /// The `k`-th direct pointer.
    Direct(usize),
    /// The single-indirect pointer block.
    Indirect,
    /// Entry `i` of the single-indirect pointer block.
    Single(usize),
    /// The double-indirect pointer block.
    Double,
    /// Entry `l1` of the double-indirect block: a pointer block of its own.
    Mid(usize),
    /// Entry `l2` of pointer block `l1` under the double-indirect block.
    Leaf(usize, usize),
}

impl Slot {
    /// The slot's indices are in range.
    pub open spec fn valid(self) -> bool {
        match self {
            Slot::Direct(k) => k < DIRECT_COUNT,
            Slot::Single(i) => i < POINTERS_PER_BLOCK,
            Slot::Mid(l1) => l1 < POINTERS_PER_BLOCK,
            Slot::Leaf(l1, l2) => l1 < POINTERS_PER_BLOCK && l2 < POINTERS_PER_BLOCK,
            _ => true,
        }
    }

    /// The slot holds a pointer block rather than file data.
    pub open spec fn is_pointer(self) -> bool {
        match self {
            Slot::Indirect | Slot::Double | Slot::Mid(_) => true,
            _ => false,
        }
    }

    /// Index of the first file block at or below this slot.
    pub open spec fn first_block(self) -> int {
        match self {
            Slot::Direct(k) => k as int,
            Slot::Indirect => DIRECT_COUNT as int,
            Slot::Single(i) => DIRECT_COUNT + i,
            Slot::Double => (DIRECT_COUNT + POINTERS_PER_BLOCK) as int,
            Slot::Mid(l1) => DIRECT_COUNT + POINTERS_PER_BLOCK + POINTERS_PER_BLOCK * l1,
            Slot::Leaf(l1, l2) => DIRECT_COUNT + POINTERS_PER_BLOCK + POINTERS_PER_BLOCK * l1 + l2,
        }
    }
}

/// The data slot that holds file block `k`.
pub open spec fn leaf_slot(k: int) -> Slot {
    match spec_locate_block(k) {
        BlockSlot::Direct(i) => Slot::Direct(i),
        BlockSlot::SingleIndirect(i) => Slot::Single(i),
        BlockSlot::DoubleIndirect { l1, l2 } => Slot::Leaf(l1, l2),
    }
}

/// File block `k` sits in a valid data slot that starts at `k`; distinct blocks sit
/// in distinct slots.
pub proof fn lemma_leaf_slot(k: int)
    requires
        0 <= k < MAX_FILE_BLOCKS,
    ensures
        leaf_slot(k).valid(),
        !leaf_slot(k).is_pointer(),
        leaf_slot(k).first_block() == k,
        forall|j: int| 0 <= j < MAX_FILE_BLOCKS && j != k ==> #[trigger] leaf_slot(j) != leaf_slot(k),
{
    if k >= DIRECT_COUNT + POINTERS_PER_BLOCK {
        let r = k - DIRECT_COUNT - POINTERS_PER_BLOCK;
        vstd::arithmetic::div_mod::lemma_fundamental_div_mod(r, 128);
        assert(r / 128 < 128) by (nonlinear_arith)
            requires
                0 <= r < 128 * 128,
        ;
        assert(0 <= r % 128 < 128);
    }
    assert forall|j: int| 0 <= j < MAX_FILE_BLOCKS && j != k implies #[trigger] leaf_slot(j) != leaf_slot(k) by {
        if j >= DIRECT_COUNT + POINTERS_PER_BLOCK && k >= DIRECT_COUNT + POINTERS_PER_BLOCK {
            let rj = j - DIRECT_COUNT - POINTERS_PER_BLOCK;
            let rk = k - DIRECT_COUNT - POINTERS_PER_BLOCK;
            vstd::arithmetic::div_mod::lemma_fundamental_div_mod(rj, 128);
            vstd::arithmetic::div_mod::lemma_fundamental_div_mod(rk, 128);
            assert(rj / 128 < 128) by (nonlinear_arith)
                requires
                    0 <= rj < 128 * 128,
            ;
            assert(rk / 128 < 128) by (nonlinear_arith)
                requires
                    0 <= rk < 128 * 128,
            ;
        }
    }
}

/// A pointer word as a block number: zero is no block.
pub open spec fn nz(v: u32) -> Option<int> {
    if v == 0 {
        None
    } else {
        Some(v as int)
    }
}

/// Block holding inode `id`'s record.
pub open spec fn ino_block(sb: SuperBlock, id: int) -> int {
    sb.inode_table_start + id / INODES_PER_BLOCK as int
}

/// Byte offset of inode `id`'s record within its block.
pub open spec fn ino_off(id: int) -> int {
    (id % INODES_PER_BLOCK as int) * INODE_SIZE
}

/// Word `w` of inode `id`'s record: 0 kind, 1 size, 2 link count, 4.. direct
/// pointers, 30 single-indirect, 31 double-indirect.
pub open spec fn ino_word(disk: Seq<Seq<u8>>, sb: SuperBlock, id: int, w: int) -> u32 {
    spec_le32(disk[ino_block(sb, id)], ino_off(id) + 4 * w)
}

/// Entry `i` of pointer block `b`.
pub open spec fn ptr(disk: Seq<Seq<u8>>, b: int, i: int) -> u32 {
    spec_le32(disk[b], 4 * i)
}

/// One of the first `n` entries of pointer block `q` is a nonzero pointer to `b`.
pub open spec fn points_below(disk: Seq<Seq<u8>>, q: int, n: int, b: int) -> bool {
    exists|e: int| 0 <= e < n && #[trigger] ptr(disk, q, e) != 0 && ptr(disk, q, e) == b
}

/// Block `b` is single-level pointer block `q` or a block that `q` points to.
pub open spec fn in_tree1(disk: Seq<Seq<u8>>, q: int, b: int) -> bool {
    b == q || points_below(disk, q, POINTERS_PER_BLOCK as int, b)
}

/// One of the first `n` entries of double-indirect block `q` points to a pointer
/// block whose tree holds `b`.
pub open spec fn below2(disk: Seq<Seq<u8>>, q: int, n: int, b: int) -> bool {
    exists|e: int| 0 <= e < n && #[trigger] ptr(disk, q, e) != 0 && in_tree1(disk, ptr(disk, q, e) as int, b)
}

/// Block `b` is double-indirect block `q` or a block below it.
pub open spec fn in_tree2(disk: Seq<Seq<u8>>, q: int, b: int) -> bool {
    b == q || below2(disk, q, POINTERS_PER_BLOCK as int, b)
}

/// Looking at one more entry of a pointer block adds exactly that entry's target.
pub proof fn lemma_points_below_step(disk: Seq<Seq<u8>>, q: int, n: int, b: int)
    requires
        0 <= n,
    ensures
        points_below(disk, q, n + 1, b) == (points_below(disk, q, n, b) || (ptr(disk, q, n) != 0
            && ptr(disk, q, n) == b)),
{
    if points_below(disk, q, n + 1, b) {
        let w = choose|w: int| 0 <= w < n + 1 && #[trigger] ptr(disk, q, w) != 0 && ptr(disk, q, w) == b;
        if w < n {
            assert(points_below(disk, q, n, b));
        }
    }
    if points_below(disk, q, n, b) {
        let w = choose|w: int| 0 <= w < n && #[trigger] ptr(disk, q, w) != 0 && ptr(disk, q, w) == b;
        assert(ptr(disk, q, w) != 0);
    }
    if ptr(disk, q, n) != 0 && ptr(disk, q, n) == b {
        assert(points_below(disk, q, n + 1, b));
    }
}

/// The tree of a pointer block depends on nothing but that block's bytes.
pub proof fn lemma_in_tree1_frame(d1: Seq<Seq<u8>>, d0: Seq<Seq<u8>>, m: int)
    requires
        d1[m] == d0[m],
    ensures
        forall|b: int| #[trigger] in_tree1(d1, m, b) == in_tree1(d0, m, b),
{
    assert forall|b: int| #[trigger] in_tree1(d1, m, b) == in_tree1(d0, m, b) by {
        let n = POINTERS_PER_BLOCK as int;
        if points_below(d1, m, n, b) {
            let w = choose|w: int| 0 <= w < n && #[trigger] ptr(d1, m, w) != 0 && ptr(d1, m, w) == b;
            assert(ptr(d0, m, w) == ptr(d1, m, w));
        }
        if points_below(d0, m, n, b) {
            let w = choose|w: int| 0 <= w < n && #[trigger] ptr(d0, m, w) != 0 && ptr(d0, m, w) == b;
            assert(ptr(d0, m, w) == ptr(d1, m, w));
        }
    }
}

/// Looking at one more entry of a double-indirect block adds exactly that entry's tree.
pub proof fn lemma_below2_step(disk: Seq<Seq<u8>>, q: int, n: int, b: int)
    requires
        0 <= n,
    ensures
        below2(disk, q, n + 1, b) == (below2(disk, q, n, b) || (ptr(disk, q, n) != 0
            && in_tree1(disk, ptr(disk, q, n) as int, b))),
{
    if below2(disk, q, n + 1, b) {
        let w = choose|w: int| 0 <= w < n + 1 && #[trigger] ptr(disk, q, w) != 0 && in_tree1(disk, ptr(disk, q, w) as int, b);
        if w < n {
            assert(below2(disk, q, n, b));
        }
    }
    if below2(disk, q, n, b) {
        let w = choose|w: int| 0 <= w < n && #[trigger] ptr(disk, q, w) != 0 && in_tree1(disk, ptr(disk, q, w) as int, b);
        assert(ptr(disk, q, w) != 0);
    }
    if ptr(disk, q, n) != 0 && in_tree1(disk, ptr(disk, q, n) as int, b) {
        assert(below2(disk, q, n + 1, b));
    }
}

/// The block that slot `s` of inode `id` holds, if any.
pub open spec fn slot_block(disk: Seq<Seq<u8>>, sb: SuperBlock, id: int, s: Slot) -> Option<int> {
    match s {
        Slot::Direct(k) => nz(ino_word(disk, sb, id, 4 + k)),
        Slot::Indirect => nz(ino_word(disk, sb, id, 30)),
        Slot::Single(i) => match nz(ino_word(disk, sb, id, 30)) {
            Some(b) => nz(ptr(disk, b, i as int)),
            None => None,
        },
        Slot::Double => nz(ino_word(disk, sb, id, 31)),
        Slot::Mid(l1) => match nz(ino_word(disk, sb, id, 31)) {
            Some(b) => nz(ptr(disk, b, l1 as int)),
            None => None,
        },
        Slot::Leaf(l1, l2) => match nz(ino_word(disk, sb, id, 31)) {
            Some(b) => match nz(ptr(disk, b, l1 as int)) {
                Some(m) => nz(ptr(disk, m, l2 as int)),
                None => None,
            },
            None => None,
        },
    }
}

/// The data block holding file block `k` of inode `id`, if any.
pub open spec fn file_block(disk: Seq<Seq<u8>>, sb: SuperBlock, id: int, k: int) -> Option<int> {
    slot_block(disk, sb, id, leaf_slot(k))
}

/// Byte `p` of inode `id`'s data: unallocated ranges read as zeros.
pub open spec fn file_byte(disk: Seq<Seq<u8>>, sb: SuperBlock, id: int, p: int) -> u8 {
    match file_block(disk, sb, id, p / BLOCK_SIZE as int) {
        Some(b) => disk[b][p % BLOCK_SIZE as int],
        None => 0,
    }
}

/// Inode `id`'s length in bytes.
pub open spec fn file_size(disk: Seq<Seq<u8>>, sb: SuperBlock, id: int) -> int {
    ino_word(disk, sb, id, 1) as int
}

/// Inode `id`'s contents.
pub open spec fn file_bytes(disk: Seq<Seq<u8>>, sb: SuperBlock, id: int) -> Seq<u8> {
    Seq::new(file_size(disk, sb, id) as nat, |p: int| file_byte(disk, sb, id, p))
}

/// Inode `id` is in use.
pub open spec fn inode_live(disk: Seq<Seq<u8>>, sb: SuperBlock, id: int) -> bool {
    0 <= id < sb.ninodes && spec_bit(disk, sb.inode_bitmap_start as int, id)
}

/// Block `b` is a data block marked in use.
pub open spec fn data_used(disk: Seq<Seq<u8>>, sb: SuperBlock, b: int) -> bool {
    &&& sb.data_start <= b < sb.data_start + sb.data_len
    &&& spec_bit(disk, sb.data_bitmap_start as int, b - sb.data_start)
}

/// The superblock describes regions in order, inside a disk of `n` blocks, with
/// bitmaps big enough for what they track.
pub open spec fn sb_layout(sb: SuperBlock, n: int) -> bool {
    &&& sb.magic == FS_MAGIC
    &&& sb.block_size == BLOCK_SIZE
    &&& sb.root_inode == ROOT_INODE
    &&& 1 <= sb.inode_bitmap_start
    &&& sb.inode_bitmap_start + sb.inode_bitmap_len <= sb.data_bitmap_start
    &&& sb.data_bitmap_start + sb.data_bitmap_len <= sb.inode_table_start
    &&& sb.inode_table_start + sb.inode_table_len <= sb.data_start
    &&& sb.data_start + sb.data_len <= n
    &&& sb.data_start + sb.data_len <= u32::MAX
    &&& sb.total_blocks <= n
    &&& n <= usize::MAX
    &&& sb.ninodes <= sb.inode_table_len * INODES_PER_BLOCK
    &&& sb.ninodes <= sb.inode_bitmap_len * BITS_PER_BLOCK
    &&& sb.data_len <= sb.data_bitmap_len * BITS_PER_BLOCK
    &&& sb.inode_bitmap_len * BITS_PER_BLOCK <= usize::MAX
    &&& sb.data_bitmap_len * BITS_PER_BLOCK <= usize::MAX
}

/// Every block that a live inode reaches is a data block in use, reached from that
/// one place only (as `owner` records).
#[verifier::opaque]
pub open spec fn owned(disk: Seq<Seq<u8>>, sb: SuperBlock, owner: Map<int, (int, Slot)>) -> bool {
    forall|id: int, s: Slot, b: int|
        #![trigger slot_block(disk, sb, id, s), owned_at(disk, sb, owner, id, s, b)]
        inode_live(disk, sb, id) && s.valid() && slot_block(disk, sb, id, s) == Some(b)
            ==> owned_at(disk, sb, owner, id, s, b)
}

/// Block `b` is a data block in use that `owner` records as reached from slot `s`
/// of inode `id`.
pub open spec fn owned_at(
    disk: Seq<Seq<u8>>,
    sb: SuperBlock,
    owner: Map<int, (int, Slot)>,
    id: int,
    s: Slot,
    b: int,
) -> bool {
    &&& data_used(disk, sb, b)
    &&& owner.contains_key(b)
    &&& owner[b] == (id, s)
}

/// Past its end, a live file's blocks hold zeros, except that inode `id0` may hold
/// anything in the window from `lo` up to `hi`.
#[verifier::opaque]
pub open spec fn tails_zero_but(disk: Seq<Seq<u8>>, sb: SuperBlock, id0: int, lo: int, hi: int) -> bool {
    forall|id: int, p: int|
        #![trigger file_byte(disk, sb, id, p)]
        inode_live(disk, sb, id) && file_size(disk, sb, id) <= p < MAX_FILE_SIZE && !(id == id0 && lo
            <= p < hi) ==> file_byte(disk, sb, id, p) == 0
}

/// Live files fit the block tree.
#[verifier::opaque]
pub open spec fn sizes_bounded(disk: Seq<Seq<u8>>, sb: SuperBlock) -> bool {
    forall|id: int| #[trigger] inode_live(disk, sb, id) ==> file_size(disk, sb, id) <= MAX_FILE_SIZE
}

/// The on-disk image is a consistent filesystem under `sb` (with the tail window of
/// `tails_zero_but`), with `owner` naming where each reachable block is reached from.
pub open spec fn image_ok_but(
    disk: Seq<Seq<u8>>,
    sb: SuperBlock,
    owner: Map<int, (int, Slot)>,
    id0: int,
    lo: int,
    hi: int,
) -> bool {
    &&& blocks_sized(disk)
    &&& sb_layout(sb, disk.len() as int)
    &&& SuperBlock::spec_decode(disk[0]) == sb
    &&& owned(disk, sb, owner)
    &&& tails_zero_but(disk, sb, id0, lo, hi)
    &&& sizes_bounded(disk, sb)
}

/// The whole on-disk image is a consistent filesystem under `sb`.
pub open spec fn image_ok(disk: Seq<Seq<u8>>, sb: SuperBlock, owner: Map<int, (int, Slot)>) -> bool {
    image_ok_but(disk, sb, owner, 0, 0, 0)
}

/// Liveness, sizes and bytes of every file are the same on `d1` and `d2`.
pub open spec fn files_kept(d1: Seq<Seq<u8>>, d2: Seq<Seq<u8>>, sb: SuperBlock) -> bool {
    &&& forall|id: int| #[trigger] inode_live(d2, sb, id) == inode_live(d1, sb, id)
    &&& forall|id: int|
        #![trigger file_size(d2, sb, id)]
        inode_live(d1, sb, id) ==> file_size(d2, sb, id) == file_size(d1, sb, id)
    &&& forall|id: int, p: int|
        #![trigger file_byte(d2, sb, id, p)]
        inode_live(d1, sb, id) && 0 <= p < MAX_FILE_SIZE ==> file_byte(d2, sb, id, p) == file_byte(
            d1,
            sb,
            id,
            p,
        )
}

/// Files are kept, and so is which data blocks are in use.
pub open spec fn same_files(d1: Seq<Seq<u8>>, d2: Seq<Seq<u8>>, sb: SuperBlock) -> bool {
    &&& files_kept(d1, d2, sb)
    &&& forall|b: int| #[trigger] data_used(d2, sb, b) == data_used(d1, sb, b)
}

/// File tails stay zero across a change that keeps every file.
pub proof fn lemma_tails_kept(d1: Seq<Seq<u8>>, d2: Seq<Seq<u8>>, sb: SuperBlock, id0: int, lo: int, hi: int)
    requires
        tails_zero_but(d1, sb, id0, lo, hi),
        files_kept(d1, d2, sb),
    ensures
        tails_zero_but(d2, sb, id0, lo, hi),
{
    reveal(tails_zero_but);
    assert forall|id: int, p: int|
        #![trigger file_byte(d2, sb, id, p)]
        inode_live(d2, sb, id) && file_size(d2, sb, id) <= p < MAX_FILE_SIZE && !(id == id0 && lo <= p
            < hi) implies file_byte(d2, sb, id, p) == 0 by {
        assert(inode_live(d1, sb, id));
        assert(file_byte(d1, sb, id, p) == 0);
    }
}

/// File sizes stay bounded across a change that keeps every file.
pub proof fn lemma_sizes_kept(d1: Seq<Seq<u8>>, d2: Seq<Seq<u8>>, sb: SuperBlock)
    requires
        sizes_bounded(d1, sb),
        files_kept(d1, d2, sb),
    ensures
        sizes_bounded(d2, sb),
{
    reveal(sizes_bounded);
    assert forall|id: int| #[trigger] inode_live(d2, sb, id) implies file_size(d2, sb, id) <= MAX_FILE_SIZE by {
        assert(inode_live(d1, sb, id));
    }
}

/// Every record word of every live inode but word `w0` of inode `id0` is the same on
/// `d1` and `d2`.
pub open spec fn same_words_but(d1: Seq<Seq<u8>>, d2: Seq<Seq<u8>>, sb: SuperBlock, id0: int, w0: int) -> bool {
    forall|id: int, w: int|
        #![trigger ino_word(d2, sb, id, w)]
        inode_live(d1, sb, id) && 0 <= w < 32 && !(id == id0 && w == w0) ==> ino_word(d2, sb, id, w) == ino_word(
            d1,
            sb,
            id,
            w,
        )
}

/// Every slot of every live inode but slot `s0` of inode `id0` holds the same block
/// on `d1` and `d2`.
pub open spec fn same_slots_but(d1: Seq<Seq<u8>>, d2: Seq<Seq<u8>>, sb: SuperBlock, id0: int, s0: Slot) -> bool {
    forall|id: int, s: Slot|
        #![trigger slot_block(d2, sb, id, s)]
        inode_live(d1, sb, id) && s.valid() && !(id == id0 && s == s0) ==> slot_block(d2, sb, id, s)
            == slot_block(d1, sb, id, s)
}

/// Every data block is in use.
pub open spec fn data_full(disk: Seq<Seq<u8>>, sb: SuperBlock) -> bool {
    forall|b: int| sb.data_start <= b < sb.data_start + sb.data_len ==> #[trigger] data_used(disk, sb, b)
}

/// `d2` grows inode `id`'s block tree from `d1` and changes nothing else a file
/// shows: every file reads the same, every record word but `id`'s pointers is the
/// same, and every slot that held a block still holds it.
pub open spec fn tree_grown(d1: Seq<Seq<u8>>, d2: Seq<Seq<u8>>, sb: SuperBlock, id: int) -> bool {
    &&& files_kept(d1, d2, sb)
    &&& forall|i: int, w: int|
        #![trigger ino_word(d2, sb, i, w)]
        inode_live(d1, sb, i) && 0 <= w < 32 && (i != id || w < 4) ==> ino_word(d2, sb, i, w)
            == ino_word(d1, sb, i, w)
    &&& forall|i: int, s: Slot|
        #![trigger slot_block(d2, sb, i, s)]
        inode_live(d1, sb, i) && s.valid() && (i != id || slot_block(d1, sb, i, s) is Some)
            ==> slot_block(d2, sb, i, s) == slot_block(d1, sb, i, s)
}

/// Block `b` holds no live inode's record and no live inode's pointer block, and is
/// outside the inode bitmap: changing it changes no file's shape.
pub open spec fn outside_meta(disk: Seq<Seq<u8>>, sb: SuperBlock, b: int) -> bool {
    &&& !(sb.inode_table_start <= b < sb.inode_table_start + sb.inode_table_len)
    &&& !(sb.inode_bitmap_start <= b < sb.inode_bitmap_start + sb.inode_bitmap_len)
    &&& forall|id: int, s: Slot|
        inode_live(disk, sb, id) && s.valid() && s.is_pointer() ==> #[trigger] slot_block(
            disk,
            sb,
            id,
            s,
        ) != Some(b)
}

/// What `owned` says of one reached block.
pub proof fn lemma_owned_at(disk: Seq<Seq<u8>>, sb: SuperBlock, owner: Map<int, (int, Slot)>, id: int, s: Slot, b: int)
    requires
        owned(disk, sb, owner),
        inode_live(disk, sb, id),
        s.valid(),
        slot_block(disk, sb, id, s) == Some(b),
    ensures
        data_used(disk, sb, b),
        owner.contains_key(b),
        owner[b] == (id, s),
{
    reveal(owned);
    assert(owned_at(disk, sb, owner, id, s, b));
}

/// What `sizes_bounded` says of one live inode.
pub proof fn lemma_size_bounded(disk: Seq<Seq<u8>>, sb: SuperBlock, id: int)
    requires
        sizes_bounded(disk, sb),
        inode_live(disk, sb, id),
    ensures
        file_size(disk, sb, id) <= MAX_FILE_SIZE,
{
    reveal(sizes_bounded);
}

/// A live inode's record lies in the inode table.
pub proof fn lemma_ino_in_table(sb: SuperBlock, id: int, n: int)
    requires
        sb_layout(sb, n),
        0 <= id < sb.ninodes,
    ensures
        sb.inode_table_start <= ino_block(sb, id) < sb.inode_table_start + sb.inode_table_len,
        0 <= ino_off(id),
        ino_off(id) + INODE_SIZE <= BLOCK_SIZE,
{
    assert(id / 4 < sb.inode_table_len) by (nonlinear_arith)
        requires
            id < sb.ninodes,
            sb.ninodes <= sb.inode_table_len * 4,
            0 <= id,
    ;
}

/// A live inode's bit lies in the inode bitmap.
pub proof fn lemma_ino_bit_in_bitmap(sb: SuperBlock, id: int, n: int)
    requires
        sb_layout(sb, n),
        0 <= id < sb.ninodes,
    ensures
        id / 4096 < sb.inode_bitmap_len,
{
    assert(id / 4096 < sb.inode_bitmap_len) by (nonlinear_arith)
        requires
            0 <= id < sb.ninodes,
            sb.ninodes <= sb.inode_bitmap_len * 4096,
    ;
}

/// Rewriting one block outside the inode bitmap leaves every inode's liveness.
pub proof fn lemma_frame_live(disk: Seq<Seq<u8>>, sb: SuperBlock, b: int, x: Seq<u8>, id: int)
    requires
        sb_layout(sb, disk.len() as int),
        0 <= b < disk.len(),
        !(sb.inode_bitmap_start <= b < sb.inode_bitmap_start + sb.inode_bitmap_len),
    ensures
        inode_live(disk.update(b, x), sb, id) == inode_live(disk, sb, id),
{
    if 0 <= id < sb.ninodes {
        lemma_ino_bit_in_bitmap(sb, id, disk.len() as int);
    }
}

/// Rewriting one block outside the inode table leaves every live inode's record.
pub proof fn lemma_frame_word(disk: Seq<Seq<u8>>, sb: SuperBlock, b: int, x: Seq<u8>, id: int, w: int)
    requires
        sb_layout(sb, disk.len() as int),
        0 <= b < disk.len(),
        !(sb.inode_table_start <= b < sb.inode_table_start + sb.inode_table_len),
        0 <= id < sb.ninodes,
    ensures
        ino_word(disk.update(b, x), sb, id, w) == ino_word(disk, sb, id, w),
{
    lemma_ino_in_table(sb, id, disk.len() as int);
}

/// Rewriting a block outside the filesystem's metadata leaves a live inode's tree.
pub proof fn lemma_frame_slot(
    disk: Seq<Seq<u8>>,
    sb: SuperBlock,
    owner: Map<int, (int, Slot)>,
    b: int,
    x: Seq<u8>,
    id: int,
    s: Slot,
)
    requires
        sb_layout(sb, disk.len() as int),
        owned(disk, sb, owner),
        0 <= b < disk.len(),
        outside_meta(disk, sb, b),
        inode_live(disk, sb, id),
        s.valid(),
    ensures
        slot_block(disk.update(b, x), sb, id, s) == slot_block(disk, sb, id, s),
{
    let d2 = disk.update(b, x);
    lemma_frame_word(disk, sb, b, x, id, 30);
    lemma_frame_word(disk, sb, b, x, id, 31);
    match s {
        Slot::Direct(k) => {
            lemma_frame_word(disk, sb, b, x, id, 4 + k as int);
            assert(slot_block(d2, sb, id, s) == slot_block(disk, sb, id, s));
        },
        Slot::Indirect => {
            assert(slot_block(d2, sb, id, s) == slot_block(disk, sb, id, s));
        },
        Slot::Double => {
            assert(slot_block(d2, sb, id, s) == slot_block(disk, sb, id, s));
        },
        Slot::Single(i) => {
            if let Some(p) = slot_block(disk, sb, id, Slot::Indirect) {
                lemma_owned_at(disk, sb, owner, id, Slot::Indirect, p);
                assert(d2[p] == disk[p]);
            }
        },
        Slot::Mid(l1) => {
            if let Some(p) = slot_block(disk, sb, id, Slot::Double) {
                lemma_owned_at(disk, sb, owner, id, Slot::Double, p);
                assert(d2[p] == disk[p]);
            }
        },
        Slot::Leaf(l1, l2) => {
            if let Some(p) = slot_block(disk, sb, id, Slot::Double) {
                lemma_owned_at(disk, sb, owner, id, Slot::Double, p);
                assert(d2[p] == disk[p]);
                assert(Slot::Mid(l1).valid());
                if let Some(m) = slot_block(disk, sb, id, Slot::Mid(l1)) {
                    lemma_owned_at(disk, sb, owner, id, Slot::Mid(l1), m);
                    assert(d2[m] == disk[m]);
                }
            }
        },
    }
}

/// Rewriting a block outside the filesystem's metadata changes no live inode's
/// record, liveness or block tree.
pub proof fn lemma_frame(disk: Seq<Seq<u8>>, sb: SuperBlock, owner: Map<int, (int, Slot)>, b: int, x: Seq<u8>)
    requires
        sb_layout(sb, disk.len() as int),
        owned(disk, sb, owner),
        0 <= b < disk.len(),
        outside_meta(disk, sb, b),
    ensures
        forall|id: int| #[trigger] inode_live(disk.update(b, x), sb, id) == inode_live(disk, sb, id),
        forall|id: int, w: int|
            inode_live(disk, sb, id) ==> #[trigger] ino_word(disk.update(b, x), sb, id, w)
                == ino_word(disk, sb, id, w),
        forall|id: int, s: Slot|
            inode_live(disk, sb, id) && s.valid() ==> #[trigger] slot_block(disk.update(b, x), sb, id, s)
                == slot_block(disk, sb, id, s),
{
    assert forall|id: int| #[trigger] inode_live(disk.update(b, x), sb, id) == inode_live(disk, sb, id) by {
        lemma_frame_live(disk, sb, b, x, id);
    }
    assert forall|id: int, w: int| inode_live(disk, sb, id) implies #[trigger] ino_word(
        disk.update(b, x),
        sb,
        id,
        w,
    ) == ino_word(disk, sb, id, w) by {
        lemma_frame_word(disk, sb, b, x, id, w);
    }
    assert forall|id: int, s: Slot| inode_live(disk, sb, id) && s.valid() implies #[trigger] slot_block(
        disk.update(b, x),
        sb,
        id,
        s,
    ) == slot_block(disk, sb, id, s) by {
        lemma_frame_slot(disk, sb, owner, b, x, id, s);
    }
}

/// A block of zeros reads as zero pointers.
pub proof fn lemma_zero_ptr(x: Seq<u8>, i: int)
    requires
        0 <= i < POINTERS_PER_BLOCK,
        x.len() == BLOCK_SIZE,
        forall|j: int| 0 <= j < x.len() ==> #[trigger] x[j] == 0,
    ensures
        spec_le32(x, 4 * i) == 0,
{
    let a = x[4 * i];
    let b = x[4 * i + 1];
    let c = x[4 * i + 2];
    let d = x[4 * i + 3];
    assert(a == 0 && b == 0 && c == 0 && d == 0 ==> (a as u32) | ((b as u32) << 8u32) | ((c as u32)
        << 16u32) | ((d as u32) << 24u32) == 0) by (bit_vector);
}

/// `owned` carries over to a disk with the same live inodes, the same trees, and at
/// least the same data blocks in use.
pub proof fn lemma_owned_transfer(d1: Seq<Seq<u8>>, d2: Seq<Seq<u8>>, sb: SuperBlock, o: Map<int, (int, Slot)>)
    requires
        owned(d1, sb, o),
        forall|id: int| #[trigger] inode_live(d2, sb, id) == inode_live(d1, sb, id),
        same_slots_but(d1, d2, sb, -1, Slot::Indirect),
        forall|b: int| #[trigger] data_used(d1, sb, b) ==> data_used(d2, sb, b),
    ensures
        owned(d2, sb, o),
{
    reveal(owned);
    assert forall|id: int, s: Slot, b: int|
        #![trigger slot_block(d2, sb, id, s), owned_at(d2, sb, o, id, s, b)]
        inode_live(d2, sb, id) && s.valid() && slot_block(d2, sb, id, s) == Some(b) implies owned_at(
            d2,
            sb,
            o,
            id,
            s,
            b,
        ) by {
        assert(inode_live(d1, sb, id));
        assert(slot_block(d1, sb, id, s) == Some(b));
        assert(owned_at(d1, sb, o, id, s, b));
    }
}

/// A block in the data bitmap is outside the filesystem's metadata.
pub proof fn lemma_data_bitmap_outside(d1: Seq<Seq<u8>>, sb: SuperBlock, o: Map<int, (int, Slot)>, blk: int)
    requires
        sb_layout(sb, d1.len() as int),
        owned(d1, sb, o),
        sb.data_bitmap_start <= blk < sb.data_bitmap_start + sb.data_bitmap_len,
    ensures
        outside_meta(d1, sb, blk),
{
    assert forall|id: int, s: Slot|
        inode_live(d1, sb, id) && s.valid() && s.is_pointer() implies #[trigger] slot_block(d1, sb, id, s)
            != Some(blk) by {
        if let Some(b) = slot_block(d1, sb, id, s) {
            lemma_owned_at(d1, sb, o, id, s, b);
        }
    }
}

/// A change to one block below the data region, with the trees unchanged, leaves
/// every byte of every live file.
pub proof fn lemma_bytes_below_data(d1: Seq<Seq<u8>>, d2: Seq<Seq<u8>>, sb: SuperBlock, o: Map<int, (int, Slot)>, blk: int)
    requires
        sb_layout(sb, d1.len() as int),
        owned(d1, sb, o),
        d2.len() == d1.len(),
        0 <= blk < sb.data_start,
        forall|i: int| 0 <= i < d1.len() && i != blk ==> #[trigger] d2[i] == d1[i],
        same_slots_but(d1, d2, sb, -1, Slot::Indirect),
    ensures
        forall|id: int, p: int|
            #![trigger file_byte(d2, sb, id, p)]
            inode_live(d1, sb, id) && 0 <= p < MAX_FILE_SIZE ==> file_byte(d2, sb, id, p)
                == file_byte(d1, sb, id, p),
{
    assert forall|id: int, p: int|
        #![trigger file_byte(d2, sb, id, p)]
        inode_live(d1, sb, id) && 0 <= p < MAX_FILE_SIZE implies file_byte(d2, sb, id, p) == file_byte(
            d1,
            sb,
            id,
            p,
        ) by {
        let kk = p / BLOCK_SIZE as int;
        lemma_leaf_slot(kk);
        if let Some(b) = file_block(d1, sb, id, kk) {
            lemma_owned_at(d1, sb, o, id, leaf_slot(kk), b);
        }
    }
}

/// Setting the data-bitmap bit of a free data block marks it in use and changes no
/// file, no inode record and no block tree.
pub proof fn lemma_set_data_bit(d1: Seq<Seq<u8>>, sb: SuperBlock, o: Map<int, (int, Slot)>, k: int)
    requires
        blocks_sized(d1),
        sb_layout(sb, d1.len() as int),
        owned(d1, sb, o),
        0 <= k < sb.data_len,
        !spec_bit(d1, sb.data_bitmap_start as int, k),
    ensures
        ({
            let d2 = with_bit(d1, sb.data_bitmap_start as int, k, true);
            &&& d2.len() == d1.len()
            &&& blocks_sized(d2)
            &&& d2[0] == d1[0]
            &&& owned(d2, sb, o)
            &&& forall|id: int| #[trigger] inode_live(d2, sb, id) == inode_live(d1, sb, id)
            &&& same_words_but(d1, d2, sb, -1, -1)
            &&& same_slots_but(d1, d2, sb, -1, Slot::Indirect)
            &&& forall|id: int, p: int|
                #![trigger file_byte(d2, sb, id, p)]
                inode_live(d1, sb, id) && 0 <= p < MAX_FILE_SIZE ==> file_byte(d2, sb, id, p)
                    == file_byte(d1, sb, id, p)
            &&& forall|b: int|
                #[trigger] data_used(d2, sb, b) == (b == sb.data_start + k || data_used(d1, sb, b))
        }),
{
    let start = sb.data_bitmap_start as int;
    let d2 = with_bit(d1, start, k, true);
    let blk = start + k / 4096;
    assert(k / 4096 < sb.data_bitmap_len) by (nonlinear_arith)
        requires
            0 <= k < sb.data_len,
            sb.data_len <= sb.data_bitmap_len * 4096,
    ;
    lemma_with_bit(d1, start, k, true, k, sb.data_bitmap_len as int);
    assert(d2 =~= d1.update(blk, d2[blk]));
    lemma_data_bitmap_outside(d1, sb, o, blk);
    lemma_frame(d1, sb, o, blk, d2[blk]);
    assert forall|b: int| #[trigger] data_used(d2, sb, b) == (b == sb.data_start + k || data_used(d1, sb, b)) by {
        if sb.data_start <= b < sb.data_start + sb.data_len {
            assert(b - sb.data_start < sb.data_bitmap_len * 4096);
            lemma_with_bit(d1, start, k, true, b - sb.data_start, sb.data_bitmap_len as int);
        }
    }
    assert forall|i: int| 0 <= i < d2.len() implies #[trigger] d2[i].len() == BLOCK_SIZE by {}
    lemma_bytes_below_data(d1, d2, sb, o, blk);
    lemma_owned_transfer(d1, d2, sb, o);
}

/// No live inode reaches block `b`.
pub open spec fn not_reached(disk: Seq<Seq<u8>>, sb: SuperBlock, b: int) -> bool {
    forall|id: int, s: Slot|
        inode_live(disk, sb, id) && s.valid() ==> #[trigger] slot_block(disk, sb, id, s) != Some(b)
}

/// Every byte of `x` is zero.
pub open spec fn all_zero(x: Seq<u8>) -> bool {
    forall|j: int| 0 <= j < x.len() ==> #[trigger] x[j] == 0
}

/// Files read the same across a change that keeps every tree but slot `s` of inode
/// `id`, which now reaches the zeroed block `b` where it reached nothing, and that
/// keeps every data block in use other than `b`.
pub proof fn lemma_bytes_after_link(
    d1: Seq<Seq<u8>>,
    d2: Seq<Seq<u8>>,
    sb: SuperBlock,
    o: Map<int, (int, Slot)>,
    id: int,
    s: Slot,
    b: int,
    pb: int,
)
    requires
        owned(d1, sb, o),
        forall|i: int| #[trigger] inode_live(d2, sb, i) == inode_live(d1, sb, i),
        same_slots_but(d1, d2, sb, id, s),
        slot_block(d1, sb, id, s) is None,
        slot_block(d2, sb, id, s) == Some(b),
        d2[b].len() == BLOCK_SIZE,
        all_zero(d2[b]),
        not_reached(d1, sb, b),
        forall|lb: int| data_used(d1, sb, lb) && lb != b && lb != pb ==> #[trigger] d2[lb] == d1[lb],
        forall|i: int, s2: Slot|
            inode_live(d1, sb, i) && s2.valid() && !s2.is_pointer() ==> #[trigger] slot_block(d1, sb, i, s2)
                != Some(pb),
    ensures
        forall|i: int, p: int|
            #![trigger file_byte(d2, sb, i, p)]
            inode_live(d1, sb, i) && 0 <= p < MAX_FILE_SIZE ==> file_byte(d2, sb, i, p) == file_byte(
                d1,
                sb,
                i,
                p,
            ),
{
    assert forall|i: int, p: int|
        #![trigger file_byte(d2, sb, i, p)]
        inode_live(d1, sb, i) && 0 <= p < MAX_FILE_SIZE implies file_byte(d2, sb, i, p) == file_byte(
            d1,
            sb,
            i,
            p,
        ) by {
        let kk = p / BLOCK_SIZE as int;
        lemma_leaf_slot(kk);
        let ls = leaf_slot(kk);
        if i == id && ls == s {
            assert(d2[b][p % BLOCK_SIZE as int] == 0);
        } else {
            assert(slot_block(d2, sb, i, ls) == slot_block(d1, sb, i, ls));
            if let Some(lb) = slot_block(d1, sb, i, ls) {
                lemma_owned_at(d1, sb, o, i, ls, lb);
            }
        }
    }
}

/// `owned` holds after slot `s` of live inode `id` comes to reach `b`, a block in use
/// that nothing reached before, with `owner` recording it.
pub proof fn lemma_owned_after_link(
    d1: Seq<Seq<u8>>,
    d2: Seq<Seq<u8>>,
    sb: SuperBlock,
    o: Map<int, (int, Slot)>,
    id: int,
    s: Slot,
    b: int,
)
    requires
        owned(d1, sb, o),
        forall|i: int| #[trigger] inode_live(d2, sb, i) == inode_live(d1, sb, i),
        same_slots_but(d1, d2, sb, id, s),
        slot_block(d2, sb, id, s) == Some(b),
        data_used(d2, sb, b),
        forall|b2: int| #[trigger] data_used(d1, sb, b2) ==> data_used(d2, sb, b2),
        not_reached(d1, sb, b),
    ensures
        owned(d2, sb, o.insert(b, (id, s))),
{
    let o2 = o.insert(b, (id, s));
    reveal(owned);
    assert forall|i: int, s2: Slot, b2: int|
        #![trigger slot_block(d2, sb, i, s2), owned_at(d2, sb, o2, i, s2, b2)]
        inode_live(d2, sb, i) && s2.valid() && slot_block(d2, sb, i, s2) == Some(b2) implies owned_at(
            d2,
            sb,
            o2,
            i,
            s2,
            b2,
        ) by {
        if i == id && s2 == s {
        } else {
            assert(slot_block(d1, sb, i, s2) == Some(b2));
            assert(owned_at(d1, sb, o, i, s2, b2));
            assert(b2 != b);
        }
    }
}

/// Files read the same across a change that keeps every tree and changes only
/// blocks that no live file reaches.
pub proof fn lemma_bytes_same(d1: Seq<Seq<u8>>, d2: Seq<Seq<u8>>, sb: SuperBlock, o: Map<int, (int, Slot)>, b: int)
    requires
        owned(d1, sb, o),
        same_slots_but(d1, d2, sb, -1, Slot::Indirect),
        not_reached(d1, sb, b),
        forall|lb: int| data_used(d1, sb, lb) && lb != b ==> #[trigger] d2[lb] == d1[lb],
    ensures
        forall|i: int, p: int|
            #![trigger file_byte(d2, sb, i, p)]
            inode_live(d1, sb, i) && 0 <= p < MAX_FILE_SIZE ==> file_byte(d2, sb, i, p) == file_byte(
                d1,
                sb,
                i,
                p,
            ),
{
    assert forall|i: int, p: int|
        #![trigger file_byte(d2, sb, i, p)]
        inode_live(d1, sb, i) && 0 <= p < MAX_FILE_SIZE implies file_byte(d2, sb, i, p) == file_byte(
            d1,
            sb,
            i,
            p,
        ) by {
        let kk = p / BLOCK_SIZE as int;
        lemma_leaf_slot(kk);
        let ls = leaf_slot(kk);
        if let Some(lb) = slot_block(d1, sb, i, ls) {
            lemma_owned_at(d1, sb, o, i, ls, lb);
        }
    }
}

/// Zeroing a block in use that no live file reaches changes no file, record or tree.
pub proof fn lemma_zero_fresh(d1: Seq<Seq<u8>>, sb: SuperBlock, o: Map<int, (int, Slot)>, b: int, z: Seq<u8>)
    requires
        blocks_sized(d1),
        sb_layout(sb, d1.len() as int),
        owned(d1, sb, o),
        data_used(d1, sb, b),
        not_reached(d1, sb, b),
        z.len() == BLOCK_SIZE,
        all_zero(z),
    ensures
        ({
            let d2 = d1.update(b, z);
            &&& d2.len() == d1.len()
            &&& blocks_sized(d2)
            &&& d2[0] == d1[0]
            &&& same_files(d1, d2, sb)
            &&& same_words_but(d1, d2, sb, -1, -1)
            &&& same_slots_but(d1, d2, sb, -1, Slot::Indirect)
            &&& owned(d2, sb, o)
            &&& not_reached(d2, sb, b)
        }),
{
    let d2 = d1.update(b, z);
    assert(outside_meta(d1, sb, b));
    lemma_frame(d1, sb, o, b, z);
    lemma_bytes_same(d1, d2, sb, o, b);
    assert forall|b2: int| #[trigger] data_used(d2, sb, b2) == data_used(d1, sb, b2) by {
        if sb.data_start <= b2 < sb.data_start + sb.data_len {
            assert(b2 - sb.data_start < sb.data_bitmap_len * 4096);
            assert((b2 - sb.data_start) / 4096 < sb.data_bitmap_len) by (nonlinear_arith)
                requires
                    0 <= b2 - sb.data_start < sb.data_bitmap_len * 4096,
            ;
        }
    }
    lemma_owned_transfer(d1, d2, sb, o);
    assert forall|i: int| 0 <= i < d2.len() implies #[trigger] d2[i].len() == BLOCK_SIZE by {}
}

/// Writing word `w` of inode `id`'s record changes that word and no other word of
/// any inode's record.
pub proof fn lemma_word_update(d1: Seq<Seq<u8>>, sb: SuperBlock, id: int, w: int, v: u32)
    requires
        sb_layout(sb, d1.len() as int),
        blocks_sized(d1),
        0 <= id < sb.ninodes,
        0 <= w < 32,
    ensures
        ({
            let ib = ino_block(sb, id);
            let d2 = d1.update(ib, splice(d1[ib], ino_off(id) + 4 * w, spec_le32_bytes(v)));
            &&& 0 < ib < d1.len()
            &&& sb.inode_table_start <= ib < sb.inode_table_start + sb.inode_table_len
            &&& d2[ib].len() == BLOCK_SIZE
            &&& forall|id2: int, w2: int|
                #![trigger ino_word(d2, sb, id2, w2)]
                0 <= id2 < sb.ninodes && 0 <= w2 < 32 ==> ino_word(d2, sb, id2, w2) == if id2 == id
                    && w2 == w {
                    v
                } else {
                    ino_word(d1, sb, id2, w2)
                }
        }),
{
    let ib = ino_block(sb, id);
    let t = splice(d1[ib], ino_off(id) + 4 * w, spec_le32_bytes(v));
    let d2 = d1.update(ib, t);
    lemma_ino_in_table(sb, id, d1.len() as int);
    lemma_le32_roundtrip(d1[ib], ino_off(id) + 4 * w, v);
    assert forall|id2: int, w2: int|
        #![trigger ino_word(d2, sb, id2, w2)]
        0 <= id2 < sb.ninodes && 0 <= w2 < 32 implies ino_word(d2, sb, id2, w2) == if id2 == id && w2
            == w {
            v
        } else {
            ino_word(d1, sb, id2, w2)
        } by {
        lemma_ino_in_table(sb, id2, d1.len() as int);
        if ino_block(sb, id2) == ib && !(id2 == id && w2 == w) {
            if id2 != id {
                vstd::arithmetic::div_mod::lemma_fundamental_div_mod(id, 4);
                vstd::arithmetic::div_mod::lemma_fundamental_div_mod(id2, 4);
                assert(ino_off(id2) != ino_off(id));
            }
            lemma_le32_frame(d1[ib], ino_off(id) + 4 * w, spec_le32_bytes(v), ino_off(id2) + 4 * w2);
        }
    }
}

/// Writing entry `i` of block `pb` changes that entry and nothing else in the block.
pub proof fn lemma_ptr_update(d1: Seq<Seq<u8>>, pb: int, i: int, v: u32)
    requires
        blocks_sized(d1),
        0 <= pb < d1.len(),
        0 <= i < POINTERS_PER_BLOCK,
    ensures
        ({
            let d2 = d1.update(pb, splice(d1[pb], 4 * i, spec_le32_bytes(v)));
            &&& d2[pb].len() == BLOCK_SIZE
            &&& forall|j: int|
                #![trigger ptr(d2, pb, j)]
                0 <= j < POINTERS_PER_BLOCK ==> ptr(d2, pb, j) == if j == i {
                    v
                } else {
                    ptr(d1, pb, j)
                }
        }),
{
    let d2 = d1.update(pb, splice(d1[pb], 4 * i, spec_le32_bytes(v)));
    lemma_le32_roundtrip(d1[pb], 4 * i, v);
    assert forall|j: int|
        #![trigger ptr(d2, pb, j)]
        0 <= j < POINTERS_PER_BLOCK implies ptr(d2, pb, j) == if j == i {
            v
        } else {
            ptr(d1, pb, j)
        } by {
        if j != i {
            lemma_le32_frame(d1[pb], 4 * i, spec_le32_bytes(v), 4 * j);
        }
    }
}

/// The word of inode `id`'s record that holds slot `s`, for slots held there.
pub open spec fn slot_word(s: Slot) -> int {
    match s {
        Slot::Direct(k) => 4 + k,
        Slot::Indirect => 30,
        Slot::Double => 31,
        _ => -1,
    }
}

/// Filling a record slot of live inode `id` that held nothing with `b`, a zeroed
/// block in use that nothing reached, makes that slot reach `b` and changes no other
/// slot, no other record word and no file's bytes.
pub proof fn lemma_link_word(d1: Seq<Seq<u8>>, sb: SuperBlock, o: Map<int, (int, Slot)>, id: int, s: Slot, b: int)
    requires
        blocks_sized(d1),
        sb_layout(sb, d1.len() as int),
        owned(d1, sb, o),
        inode_live(d1, sb, id),
        s.valid(),
        slot_word(s) >= 0,
        ino_word(d1, sb, id, slot_word(s)) == 0,
        data_used(d1, sb, b),
        not_reached(d1, sb, b),
        all_zero(d1[b]),
        0 < b <= u32::MAX,
    ensures
        ({
            let ib = ino_block(sb, id);
            let d2 = d1.update(ib, splice(d1[ib], ino_off(id) + 4 * slot_word(s), spec_le32_bytes(b as u32)));
            &&& d2.len() == d1.len()
            &&& blocks_sized(d2)
            &&& d2[0] == d1[0]
            &&& same_files(d1, d2, sb)
            &&& same_words_but(d1, d2, sb, id, slot_word(s))
            &&& ino_word(d2, sb, id, slot_word(s)) == b
            &&& same_slots_but(d1, d2, sb, id, s)
            &&& slot_block(d2, sb, id, s) == Some(b)
            &&& owned(d2, sb, o.insert(b, (id, s)))
        }),
{
    let w = slot_word(s);
    let ib = ino_block(sb, id);
    let d2 = d1.update(ib, splice(d1[ib], ino_off(id) + 4 * w, spec_le32_bytes(b as u32)));
    lemma_word_update(d1, sb, id, w, b as u32);
    assert forall|i: int| #[trigger] inode_live(d2, sb, i) == inode_live(d1, sb, i) by {
        lemma_frame_live(d1, sb, ib, d2[ib], i);
    }
    assert(d1[b].len() == BLOCK_SIZE);
    assert(d2[b] == d1[b]);
    assert forall|i: int, s2: Slot|
        #![trigger slot_block(d2, sb, i, s2)]
        inode_live(d1, sb, i) && s2.valid() && !(i == id && s2 == s) implies slot_block(d2, sb, i, s2)
            == slot_block(d1, sb, i, s2) by {
        assert(ino_word(d2, sb, i, 30) == ino_word(d1, sb, i, 30) || (i == id && s == Slot::Indirect));
        assert(ino_word(d2, sb, i, 31) == ino_word(d1, sb, i, 31) || (i == id && s == Slot::Double));
        match s2 {
            Slot::Direct(k) => {
                assert(ino_word(d2, sb, i, 4 + k) == ino_word(d1, sb, i, 4 + k));
            },
            Slot::Single(j) => {
                if i == id && s == Slot::Indirect {
                    lemma_zero_ptr(d1[b], j as int);
                } else if let Some(pb) = slot_block(d1, sb, i, Slot::Indirect) {
                    lemma_owned_at(d1, sb, o, i, Slot::Indirect, pb);
                    assert(d2[pb] == d1[pb]);
                }
            },
            Slot::Mid(l1) => {
                if i == id && s == Slot::Double {
                    lemma_zero_ptr(d1[b], l1 as int);
                } else if let Some(pb) = slot_block(d1, sb, i, Slot::Double) {
                    lemma_owned_at(d1, sb, o, i, Slot::Double, pb);
                    assert(d2[pb] == d1[pb]);
                }
            },
            Slot::Leaf(l1, l2) => {
                if i == id && s == Slot::Double {
                    lemma_zero_ptr(d1[b], l1 as int);
                } else if let Some(pb) = slot_block(d1, sb, i, Slot::Double) {
                    lemma_owned_at(d1, sb, o, i, Slot::Double, pb);
                    assert(d2[pb] == d1[pb]);
                    assert(Slot::Mid(l1).valid());
                    if let Some(m) = slot_block(d1, sb, i, Slot::Mid(l1)) {
                        lemma_owned_at(d1, sb, o, i, Slot::Mid(l1), m);
                        assert(d2[m] == d1[m]);
                    }
                }
            },
            _ => {},
        }
    }
    assert forall|b2: int| #[trigger] data_used(d2, sb, b2) == data_used(d1, sb, b2) by {
        if sb.data_start <= b2 < sb.data_start + sb.data_len {
            assert((b2 - sb.data_start) / 4096 < sb.data_bitmap_len) by (nonlinear_arith)
                requires
                    0 <= b2 - sb.data_start < sb.data_len,
                    sb.data_len <= sb.data_bitmap_len * 4096,
            ;
        }
    }
    assert forall|i: int, s2: Slot|
        inode_live(d1, sb, i) && s2.valid() && !s2.is_pointer() implies #[trigger] slot_block(d1, sb, i, s2)
            != Some(ib) by {
        if let Some(q) = slot_block(d1, sb, i, s2) {
            lemma_owned_at(d1, sb, o, i, s2, q);
        }
    }
    lemma_bytes_after_link(d1, d2, sb, o, id, s, b, ib);
    lemma_owned_after_link(d1, d2, sb, o, id, s, b);
    assert forall|i: int| 0 <= i < d2.len() implies #[trigger] d2[i].len() == BLOCK_SIZE by {}
}

/// The slot at entry `i` of the pointer block that slot `ps` holds.
pub open spec fn child(ps: Slot, i: usize) -> Slot {
    match ps {
        Slot::Indirect => Slot::Single(i),
        Slot::Double => Slot::Mid(i),
        Slot::Mid(l1) => Slot::Leaf(l1, i),
        _ => ps,
    }
}

/// Filling entry `i` of pointer block `pb`, which slot `ps` of live inode `id`
/// holds and whose entry is empty, with `b`, a zeroed block in use that nothing
/// reached, makes the child slot reach `b` and changes nothing else.
pub proof fn lemma_link_ptr(
    d1: Seq<Seq<u8>>,
    sb: SuperBlock,
    o: Map<int, (int, Slot)>,
    id: int,
    ps: Slot,
    pb: int,
    i: usize,
    b: int,
)
    requires
        blocks_sized(d1),
        sb_layout(sb, d1.len() as int),
        owned(d1, sb, o),
        inode_live(d1, sb, id),
        ps.valid(),
        ps.is_pointer(),
        i < POINTERS_PER_BLOCK,
        slot_block(d1, sb, id, ps) == Some(pb),
        ptr(d1, pb, i as int) == 0,
        data_used(d1, sb, b),
        not_reached(d1, sb, b),
        all_zero(d1[b]),
        0 < b <= u32::MAX,
    ensures
        ({
            let d2 = d1.update(pb, splice(d1[pb], 4 * i, spec_le32_bytes(b as u32)));
            &&& d2.len() == d1.len()
            &&& blocks_sized(d2)
            &&& d2[0] == d1[0]
            &&& same_files(d1, d2, sb)
            &&& same_words_but(d1, d2, sb, -1, -1)
            &&& same_slots_but(d1, d2, sb, id, child(ps, i))
            &&& slot_block(d2, sb, id, child(ps, i)) == Some(b)
            &&& child(ps, i).valid()
            &&& owned(d2, sb, o.insert(b, (id, child(ps, i))))
        }),
{
    let s = child(ps, i);
    let d2 = d1.update(pb, splice(d1[pb], 4 * i, spec_le32_bytes(b as u32)));
    lemma_owned_at(d1, sb, o, id, ps, pb);
    lemma_ptr_update(d1, pb, i as int, b as u32);
    assert forall|k: int| #[trigger] inode_live(d2, sb, k) == inode_live(d1, sb, k) by {
        lemma_frame_live(d1, sb, pb, d2[pb], k);
    }
    assert forall|k: int, w: int|
        #![trigger ino_word(d2, sb, k, w)]
        inode_live(d1, sb, k) && 0 <= w < 32 && !(k == -1 && w == -1) implies ino_word(d2, sb, k, w)
            == ino_word(d1, sb, k, w) by {
        lemma_frame_word(d1, sb, pb, d2[pb], k, w);
    }
    assert(d1[b].len() == BLOCK_SIZE);
    assert(d2[b] == d1[b]);
    assert forall|k: int, s2: Slot|
        #![trigger slot_block(d2, sb, k, s2)]
        inode_live(d1, sb, k) && s2.valid() && !(k == id && s2 == s) implies slot_block(d2, sb, k, s2)
            == slot_block(d1, sb, k, s2) by {
        assert(ino_word(d2, sb, k, 30) == ino_word(d1, sb, k, 30));
        assert(ino_word(d2, sb, k, 31) == ino_word(d1, sb, k, 31));
        match s2 {
            Slot::Direct(j) => {
                assert(ino_word(d2, sb, k, 4 + j) == ino_word(d1, sb, k, 4 + j));
            },
            Slot::Single(j) => {
                if let Some(q) = slot_block(d1, sb, k, Slot::Indirect) {
                    lemma_owned_at(d1, sb, o, k, Slot::Indirect, q);
                    if q == pb {
                        assert(k == id && ps == Slot::Indirect);
                    } else {
                        assert(d2[q] == d1[q]);
                    }
                }
            },
            Slot::Mid(j) => {
                if let Some(q) = slot_block(d1, sb, k, Slot::Double) {
                    lemma_owned_at(d1, sb, o, k, Slot::Double, q);
                    if q == pb {
                        assert(k == id && ps == Slot::Double);
                    } else {
                        assert(d2[q] == d1[q]);
                    }
                }
            },
            Slot::Leaf(l1, l2) => {
                assert(Slot::Mid(l1).valid());
                if let Some(q) = slot_block(d1, sb, k, Slot::Double) {
                    lemma_owned_at(d1, sb, o, k, Slot::Double, q);
                    if q == pb {
                        assert(k == id && ps == Slot::Double);
                        if l1 == i {
                            lemma_zero_ptr(d1[b], l2 as int);
                        } else if let Some(m) = slot_block(d1, sb, k, Slot::Mid(l1)) {
                            lemma_owned_at(d1, sb, o, k, Slot::Mid(l1), m);
                            assert(d2[m] == d1[m]);
                        }
                    } else {
                        assert(d2[q] == d1[q]);
                        if let Some(m) = slot_block(d1, sb, k, Slot::Mid(l1)) {
                            lemma_owned_at(d1, sb, o, k, Slot::Mid(l1), m);
                            if m == pb {
                                assert(k == id && ps == Slot::Mid(l1));
                            } else {
                                assert(d2[m] == d1[m]);
                            }
                        }
                    }
                }
            },
            _ => {},
        }
    }
    assert(slot_block(d2, sb, id, ps) == Some(pb)) by {
        if let Slot::Mid(l1) = ps {
            if let Some(q) = slot_block(d1, sb, id, Slot::Double) {
                lemma_owned_at(d1, sb, o, id, Slot::Double, q);
                assert(d2[q] == d1[q]);
            }
        }
    }
    assert forall|b2: int| #[trigger] data_used(d2, sb, b2) == data_used(d1, sb, b2) by {
        if sb.data_start <= b2 < sb.data_start + sb.data_len {
            assert((b2 - sb.data_start) / 4096 < sb.data_bitmap_len) by (nonlinear_arith)
                requires
                    0 <= b2 - sb.data_start < sb.data_len,
                    sb.data_len <= sb.data_bitmap_len * 4096,
            ;
        }
    }
    assert forall|k: int, s2: Slot|
        inode_live(d1, sb, k) && s2.valid() && !s2.is_pointer() implies #[trigger] slot_block(d1, sb, k, s2)
            != Some(pb) by {
        if slot_block(d1, sb, k, s2) == Some(pb) {
            lemma_owned_at(d1, sb, o, k, s2, pb);
        }
    }
    lemma_bytes_after_link(d1, d2, sb, o, id, s, b, pb);
    lemma_owned_after_link(d1, d2, sb, o, id, s, b);
    assert forall|k: int| 0 <= k < d2.len() implies #[trigger] d2[k].len() == BLOCK_SIZE by {}
}

/// Overwriting data block `b`, which holds file block `k` of live inode `id`, changes
/// exactly that file block's bytes.
pub proof fn lemma_modify_leaf(d1: Seq<Seq<u8>>, sb: SuperBlock, o: Map<int, (int, Slot)>, id: int, k: int, b: int, x: Seq<u8>)
    requires
        blocks_sized(d1),
        sb_layout(sb, d1.len() as int),
        owned(d1, sb, o),
        inode_live(d1, sb, id),
        0 <= k < MAX_FILE_BLOCKS,
        file_block(d1, sb, id, k) == Some(b),
        x.len() == BLOCK_SIZE,
    ensures
        ({
            let d2 = d1.update(b, x);
            &&& d2.len() == d1.len()
            &&& blocks_sized(d2)
            &&& d2[0] == d1[0]
            &&& forall|i: int| #[trigger] inode_live(d2, sb, i) == inode_live(d1, sb, i)
            &&& same_words_but(d1, d2, sb, -1, -1)
            &&& same_slots_but(d1, d2, sb, -1, Slot::Indirect)
            &&& forall|b2: int| #[trigger] data_used(d2, sb, b2) == data_used(d1, sb, b2)
            &&& owned(d2, sb, o)
            &&& forall|i: int, p: int|
                #![trigger file_byte(d2, sb, i, p)]
                inode_live(d1, sb, i) && 0 <= p < MAX_FILE_SIZE ==> file_byte(d2, sb, i, p) == if i
                    == id && p / BLOCK_SIZE as int == k {
                    x[p % BLOCK_SIZE as int]
                } else {
                    file_byte(d1, sb, i, p)
                }
        }),
{
    let d2 = d1.update(b, x);
    lemma_leaf_slot(k);
    lemma_owned_at(d1, sb, o, id, leaf_slot(k), b);
    assert forall|i: int, s: Slot|
        inode_live(d1, sb, i) && s.valid() && s.is_pointer() implies #[trigger] slot_block(d1, sb, i, s)
            != Some(b) by {
        if slot_block(d1, sb, i, s) == Some(b) {
            lemma_owned_at(d1, sb, o, i, s, b);
        }
    }
    assert(outside_meta(d1, sb, b));
    lemma_frame(d1, sb, o, b, x);
    assert forall|b2: int| #[trigger] data_used(d2, sb, b2) == data_used(d1, sb, b2) by {
        if sb.data_start <= b2 < sb.data_start + sb.data_len {
            assert((b2 - sb.data_start) / 4096 < sb.data_bitmap_len) by (nonlinear_arith)
                requires
                    0 <= b2 - sb.data_start < sb.data_len,
                    sb.data_len <= sb.data_bitmap_len * 4096,
            ;
        }
    }
    lemma_owned_transfer(d1, d2, sb, o);
    assert forall|i: int, p: int|
        #![trigger file_byte(d2, sb, i, p)]
        inode_live(d1, sb, i) && 0 <= p < MAX_FILE_SIZE implies file_byte(d2, sb, i, p) == if i == id
            && p / BLOCK_SIZE as int == k {
            x[p % BLOCK_SIZE as int]
        } else {
            file_byte(d1, sb, i, p)
        } by {
        let kk = p / BLOCK_SIZE as int;
        lemma_leaf_slot(kk);
        let ls = leaf_slot(kk);
        if let Some(lb) = slot_block(d1, sb, i, ls) {
            lemma_owned_at(d1, sb, o, i, ls, lb);
        }
    }
    assert forall|i: int| 0 <= i < d2.len() implies #[trigger] d2[i].len() == BLOCK_SIZE by {}
}

/// Rewriting a live inode's size word changes that size and nothing else a file
/// shows, nor any tree or block use.
pub proof fn lemma_set_size(d1: Seq<Seq<u8>>, sb: SuperBlock, o: Map<int, (int, Slot)>, id: int, v: u32)
    requires
        blocks_sized(d1),
        sb_layout(sb, d1.len() as int),
        owned(d1, sb, o),
        inode_live(d1, sb, id),
    ensures
        ({
            let ib = ino_block(sb, id);
            let d2 = d1.update(ib, splice(d1[ib], ino_off(id) + 4, spec_le32_bytes(v)));
            &&& d2.len() == d1.len()
            &&& blocks_sized(d2)
            &&& d2[0] == d1[0]
            &&& forall|i: int| #[trigger] inode_live(d2, sb, i) == inode_live(d1, sb, i)
            &&& same_words_but(d1, d2, sb, id, 1)
            &&& file_size(d2, sb, id) == v
            &&& same_slots_but(d1, d2, sb, -1, Slot::Indirect)
            &&& forall|b2: int| #[trigger] data_used(d2, sb, b2) == data_used(d1, sb, b2)
            &&& owned(d2, sb, o)
            &&& forall|i: int, p: int|
                #![trigger file_byte(d2, sb, i, p)]
                inode_live(d1, sb, i) && 0 <= p < MAX_FILE_SIZE ==> file_byte(d2, sb, i, p)
                    == file_byte(d1, sb, i, p)
        }),
{
    let ib = ino_block(sb, id);
    let d2 = d1.update(ib, splice(d1[ib], ino_off(id) + 4, spec_le32_bytes(v)));
    lemma_word_update(d1, sb, id, 1, v);
    assert forall|i: int| #[trigger] inode_live(d2, sb, i) == inode_live(d1, sb, i) by {
        lemma_frame_live(d1, sb, ib, d2[ib], i);
    }
    assert forall|i: int, s: Slot|
        #![trigger slot_block(d2, sb, i, s)]
        inode_live(d1, sb, i) && s.valid() && !(i == -1 && s == Slot::Indirect) implies slot_block(
            d2,
            sb,
            i,
            s,
        ) == slot_block(d1, sb, i, s) by {
        assert(ino_word(d2, sb, i, 30) == ino_word(d1, sb, i, 30));
        assert(ino_word(d2, sb, i, 31) == ino_word(d1, sb, i, 31));
        match s {
            Slot::Direct(k) => {
                assert(ino_word(d2, sb, i, 4 + k) == ino_word(d1, sb, i, 4 + k));
            },
            Slot::Single(j) => {
                if let Some(pb) = slot_block(d1, sb, i, Slot::Indirect) {
                    lemma_owned_at(d1, sb, o, i, Slot::Indirect, pb);
                }
            },
            Slot::Mid(l1) => {
                if let Some(pb) = slot_block(d1, sb, i, Slot::Double) {
                    lemma_owned_at(d1, sb, o, i, Slot::Double, pb);
                }
            },
            Slot::Leaf(l1, l2) => {
                assert(Slot::Mid(l1).valid());
                if let Some(pb) = slot_block(d1, sb, i, Slot::Double) {
                    lemma_owned_at(d1, sb, o, i, Slot::Double, pb);
                    if let Some(m) = slot_block(d1, sb, i, Slot::Mid(l1)) {
                        lemma_owned_at(d1, sb, o, i, Slot::Mid(l1), m);
                    }
                }
            },
            _ => {},
        }
    }
    assert forall|b2: int| #[trigger] data_used(d2, sb, b2) == data_used(d1, sb, b2) by {
        if sb.data_start <= b2 < sb.data_start + sb.data_len {
            assert((b2 - sb.data_start) / 4096 < sb.data_bitmap_len) by (nonlinear_arith)
                requires
                    0 <= b2 - sb.data_start < sb.data_len,
                    sb.data_len <= sb.data_bitmap_len * 4096,
            ;
        }
    }
    lemma_owned_transfer(d1, d2, sb, o);
    assert forall|i: int, p: int|
        #![trigger file_byte(d2, sb, i, p)]
        inode_live(d1, sb, i) && 0 <= p < MAX_FILE_SIZE implies file_byte(d2, sb, i, p) == file_byte(
            d1,
            sb,
            i,
            p,
        ) by {
        let kk = p / BLOCK_SIZE as int;
        lemma_leaf_slot(kk);
        let ls = leaf_slot(kk);
        if let Some(lb) = slot_block(d1, sb, i, ls) {
            lemma_owned_at(d1, sb, o, i, ls, lb);
        }
    }
    assert forall|i: int| 0 <= i < d2.len() implies #[trigger] d2[i].len() == BLOCK_SIZE by {}
}

/// Whether every data block is in use depends only on which are.
pub proof fn lemma_full_same(d1: Seq<Seq<u8>>, d2: Seq<Seq<u8>>, sb: SuperBlock)
    requires
        forall|b: int| #[trigger] data_used(d2, sb, b) == data_used(d1, sb, b),
    ensures
        data_full(d2, sb) == data_full(d1, sb),
{
    if data_full(d1, sb) {
        assert forall|b: int| sb.data_start <= b < sb.data_start + sb.data_len implies #[trigger] data_used(d2, sb, b) by {
            assert(data_used(d1, sb, b));
        }
    }
    if data_full(d2, sb) {
        assert forall|b: int| sb.data_start <= b < sb.data_start + sb.data_len implies #[trigger] data_used(d1, sb, b) by {
            assert(data_used(d2, sb, b));
        }
    }
}

/// Rewriting word 0 (kind) or 2 (link count) of a live inode's record changes that
/// word and nothing else a file shows, nor any tree or block use.
#[verifier::spinoff_prover]
pub proof fn lemma_set_meta_word(d1: Seq<Seq<u8>>, sb: SuperBlock, o: Map<int, (int, Slot)>, id: int, w: int, v: u32)
    requires
        blocks_sized(d1),
        sb_layout(sb, d1.len() as int),
        owned(d1, sb, o),
        tails_zero_but(d1, sb, 0, 0, 0),
        sizes_bounded(d1, sb),
        inode_live(d1, sb, id),
        w == 0 || w == 2,
    ensures
        ({
            let ib = ino_block(sb, id);
            let d2 = d1.update(ib, splice(d1[ib], ino_off(id) + 4 * w, spec_le32_bytes(v)));
            &&& d2.len() == d1.len()
            &&& blocks_sized(d2)
            &&& d2[0] == d1[0]
            &&& forall|i: int| #[trigger] inode_live(d2, sb, i) == inode_live(d1, sb, i)
            &&& forall|i: int, w2: int|
                #![trigger ino_word(d2, sb, i, w2)]
                0 <= i < sb.ninodes && 0 <= w2 < 32 ==> ino_word(d2, sb, i, w2) == if i == id && w2 == w {
                    v
                } else {
                    ino_word(d1, sb, i, w2)
                }
            &&& forall|b2: int| #[trigger] data_used(d2, sb, b2) == data_used(d1, sb, b2)
            &&& owned(d2, sb, o)
            &&& tails_zero_but(d2, sb, 0, 0, 0)
            &&& sizes_bounded(d2, sb)
            &&& forall|i: int| inode_live(d1, sb, i) ==> #[trigger] file_bytes(d2, sb, i) == file_bytes(d1, sb, i)
        }),
{
    let ib = ino_block(sb, id);
    let d2 = d1.update(ib, splice(d1[ib], ino_off(id) + 4 * w, spec_le32_bytes(v)));
    lemma_word_update(d1, sb, id, w, v);
    assert forall|i: int| #[trigger] inode_live(d2, sb, i) == inode_live(d1, sb, i) by {
        lemma_frame_live(d1, sb, ib, d2[ib], i);
    }
    assert forall|i: int, s: Slot|
        #![trigger slot_block(d2, sb, i, s)]
        inode_live(d1, sb, i) && s.valid() && !(i == -1 && s == Slot::Indirect) implies slot_block(
            d2,
            sb,
            i,
            s,
        ) == slot_block(d1, sb, i, s) by {
        assert(ino_word(d2, sb, i, 30) == ino_word(d1, sb, i, 30));
        assert(ino_word(d2, sb, i, 31) == ino_word(d1, sb, i, 31));
        match s {
            Slot::Direct(k) => {
                assert(ino_word(d2, sb, i, 4 + k) == ino_word(d1, sb, i, 4 + k));
            },
            Slot::Single(j) => {
                if let Some(pb) = slot_block(d1, sb, i, Slot::Indirect) {
                    lemma_owned_at(d1, sb, o, i, Slot::Indirect, pb);
                }
            },
            Slot::Mid(l1) => {
                if let Some(pb) = slot_block(d1, sb, i, Slot::Double) {
                    lemma_owned_at(d1, sb, o, i, Slot::Double, pb);
                }
            },
            Slot::Leaf(l1, l2) => {
                assert(Slot::Mid(l1).valid());
                if let Some(pb) = slot_block(d1, sb, i, Slot::Double) {
                    lemma_owned_at(d1, sb, o, i, Slot::Double, pb);
                    if let Some(m) = slot_block(d1, sb, i, Slot::Mid(l1)) {
                        lemma_owned_at(d1, sb, o, i, Slot::Mid(l1), m);
                    }
                }
            },
            _ => {},
        }
    }
    assert forall|b2: int| #[trigger] data_used(d2, sb, b2) == data_used(d1, sb, b2) by {
        if sb.data_start <= b2 < sb.data_start + sb.data_len {
            assert((b2 - sb.data_start) / 4096 < sb.data_bitmap_len) by (nonlinear_arith)
                requires
                    0 <= b2 - sb.data_start < sb.data_len,
                    sb.data_len <= sb.data_bitmap_len * 4096,
            ;
        }
    }
    lemma_owned_transfer(d1, d2, sb, o);
    assert forall|i: int, p: int|
        #![trigger file_byte(d2, sb, i, p)]
        inode_live(d1, sb, i) && 0 <= p < MAX_FILE_SIZE implies file_byte(d2, sb, i, p) == file_byte(
            d1,
            sb,
            i,
            p,
        ) by {
        let kk = p / BLOCK_SIZE as int;
        lemma_leaf_slot(kk);
        let ls = leaf_slot(kk);
        if let Some(lb) = slot_block(d1, sb, i, ls) {
            lemma_owned_at(d1, sb, o, i, ls, lb);
        }
    }
    assert forall|i: int| 0 <= i < d2.len() implies #[trigger] d2[i].len() == BLOCK_SIZE by {}
    reveal(tails_zero_but);
    reveal(sizes_bounded);
    assert forall|i: int, p: int|
        #![trigger file_byte(d2, sb, i, p)]
        inode_live(d2, sb, i) && file_size(d2, sb, i) <= p < MAX_FILE_SIZE && !(i == 0 && 0 <= p < 0)
            implies file_byte(d2, sb, i, p) == 0 by {
        assert(ino_word(d2, sb, i, 1) == ino_word(d1, sb, i, 1));
        assert(file_byte(d1, sb, i, p) == 0);
    }
    assert forall|i: int| #[trigger] inode_live(d2, sb, i) implies file_size(d2, sb, i) <= MAX_FILE_SIZE by {
        assert(ino_word(d2, sb, i, 1) == ino_word(d1, sb, i, 1));
    }
    assert forall|i: int| inode_live(d1, sb, i) implies #[trigger] file_bytes(d2, sb, i) == file_bytes(d1, sb, i) by {
        assert(ino_word(d2, sb, i, 1) == ino_word(d1, sb, i, 1));
        assert(file_size(d1, sb, i) <= MAX_FILE_SIZE);
        lemma_file_bytes_eq(d1, d2, sb, i);
    }
}

/// Data blocks whose bits below `k` are all set, with `k` at least the data length,
/// are all in use.
pub proof fn lemma_full_from_bits(d: Seq<Seq<u8>>, sb: SuperBlock, k: int)
    requires
        sb.data_len <= k,
        forall|j: int| 0 <= j < k ==> spec_bit(d, sb.data_bitmap_start as int, j),
    ensures
        data_full(d, sb),
{
    assert forall|b: int| sb.data_start <= b < sb.data_start + sb.data_len implies #[trigger] data_used(
        d,
        sb,
        b,
    ) by {
        assert(spec_bit(d, sb.data_bitmap_start as int, b - sb.data_start));
    }
}

/// Marking free data bit `k` in use and zeroing its block gives a fresh block that
/// nothing reaches, with every file, record and tree as before.
#[verifier::spinoff_prover]
pub proof fn lemma_alloc_block(d0: Seq<Seq<u8>>, sb: SuperBlock, o: Map<int, (int, Slot)>, k: int, z: Seq<u8>)
    requires
        blocks_sized(d0),
        sb_layout(sb, d0.len() as int),
        owned(d0, sb, o),
        sizes_bounded(d0, sb),
        0 <= k < sb.data_len,
        !spec_bit(d0, sb.data_bitmap_start as int, k),
        z.len() == BLOCK_SIZE,
        all_zero(z),
    ensures
        ({
            let d1 = with_bit(d0, sb.data_bitmap_start as int, k, true);
            let b = sb.data_start + k;
            let d2 = d1.update(b, splice(d1[b], 0, z));
            &&& d2.len() == d0.len()
            &&& blocks_sized(d2)
            &&& d2[0] == d0[0]
            &&& owned(d2, sb, o)
            &&& sizes_bounded(d2, sb)
            &&& files_kept(d0, d2, sb)
            &&& same_words_but(d0, d2, sb, -1, -1)
            &&& same_slots_but(d0, d2, sb, -1, Slot::Indirect)
            &&& data_used(d2, sb, b)
            &&& !data_used(d0, sb, b)
            &&& not_reached(d2, sb, b)
            &&& all_zero(d2[b])
            &&& 0 < b <= u32::MAX
            &&& b < d2.len()
            &&& forall|b2: int| b2 != b ==> #[trigger] data_used(d2, sb, b2) == data_used(d0, sb, b2)
            &&& forall|q: int| #[trigger] data_used(d0, sb, q) ==> d2[q] == d0[q]
        }),
{
    lemma_set_data_bit(d0, sb, o, k);
    let d1 = with_bit(d0, sb.data_bitmap_start as int, k, true);
    let b = sb.data_start + k;
    assert(splice(d1[b], 0, z) =~= z);
    assert forall|i: int, s: Slot| inode_live(d1, sb, i) && s.valid() implies #[trigger] slot_block(d1, sb, i, s)
        != Some(b) by {
        assert(slot_block(d1, sb, i, s) == slot_block(d0, sb, i, s));
        if slot_block(d0, sb, i, s) == Some(b) {
            lemma_owned_at(d0, sb, o, i, s, b);
        }
    }
    lemma_zero_fresh(d1, sb, o, b, z);
    let d2 = d1.update(b, z);
    assert forall|q: int| #[trigger] data_used(d0, sb, q) implies d2[q] == d0[q] by {
        let blk = sb.data_bitmap_start + k / 4096;
        assert(k / 4096 < sb.data_bitmap_len) by (nonlinear_arith)
            requires
                0 <= k < sb.data_len,
                sb.data_len <= sb.data_bitmap_len * 4096,
        ;
        lemma_with_bit(d0, sb.data_bitmap_start as int, k, true, k, sb.data_bitmap_len as int);
        assert(q != blk);
        assert(q != b);
    }
    assert(files_kept(d0, d1, sb));
    lemma_sizes_kept(d0, d2, sb);
    assert forall|i: int, w: int|
        #![trigger ino_word(d2, sb, i, w)]
        inode_live(d0, sb, i) && 0 <= w < 32 && !(i == -1 && w == -1) implies ino_word(d2, sb, i, w)
            == ino_word(d0, sb, i, w) by {
        assert(ino_word(d1, sb, i, w) == ino_word(d0, sb, i, w));
    }
    assert forall|i: int, s: Slot|
        #![trigger slot_block(d2, sb, i, s)]
        inode_live(d0, sb, i) && s.valid() && !(i == -1 && s == Slot::Indirect) implies slot_block(
            d2,
            sb,
            i,
            s,
        ) == slot_block(d0, sb, i, s) by {
        assert(slot_block(d1, sb, i, s) == slot_block(d0, sb, i, s));
    }
}

/// Allocating a fresh block and linking it into empty slot `c` of inode `id` grows
/// that inode's tree and changes nothing else a file shows.
pub proof fn lemma_grown_by_link(
    d0: Seq<Seq<u8>>,
    d1: Seq<Seq<u8>>,
    d2: Seq<Seq<u8>>,
    sb: SuperBlock,
    id: int,
    c: Slot,
    w0: int,
)
    requires
        files_kept(d0, d1, sb),
        same_words_but(d0, d1, sb, -1, -1),
        same_slots_but(d0, d1, sb, -1, Slot::Indirect),
        same_files(d1, d2, sb),
        same_words_but(d1, d2, sb, id, w0),
        w0 < 0 || w0 >= 4,
        same_slots_but(d1, d2, sb, id, c),
        slot_block(d0, sb, id, c) is None,
    ensures
        tree_grown(d0, d2, sb, id),
        files_kept(d0, d2, sb),
{
    assert forall|i: int, w2: int|
        #![trigger ino_word(d2, sb, i, w2)]
        inode_live(d0, sb, i) && 0 <= w2 < 32 && (i != id || w2 < 4) implies ino_word(d2, sb, i, w2)
            == ino_word(d0, sb, i, w2) by {
        assert(ino_word(d1, sb, i, w2) == ino_word(d0, sb, i, w2));
    }
    assert forall|i: int, s2: Slot|
        #![trigger slot_block(d2, sb, i, s2)]
        inode_live(d0, sb, i) && s2.valid() && (i != id || slot_block(d0, sb, i, s2) is Some) implies slot_block(
            d2,
            sb,
            i,
            s2,
        ) == slot_block(d0, sb, i, s2) by {
        assert(slot_block(d1, sb, i, s2) == slot_block(d0, sb, i, s2));
    }
    assert forall|i: int, p: int|
        #![trigger file_byte(d2, sb, i, p)]
        inode_live(d0, sb, i) && 0 <= p < MAX_FILE_SIZE implies file_byte(d2, sb, i, p) == file_byte(
            d0,
            sb,
            i,
            p,
        ) by {
        assert(file_byte(d1, sb, i, p) == file_byte(d0, sb, i, p));
    }
    assert forall|i: int| #![trigger file_size(d2, sb, i)] inode_live(d0, sb, i) implies file_size(d2, sb, i)
        == file_size(d0, sb, i) by {
        assert(file_size(d1, sb, i) == file_size(d0, sb, i));
    }
}

/// The child slot at entry `i` under pointer slot `ps` reaches what that entry holds.
pub proof fn lemma_child_slot(d: Seq<Seq<u8>>, sb: SuperBlock, o: Map<int, (int, Slot)>, id: int, ps: Slot, pb: int, i: usize)
    requires
        owned(d, sb, o),
        sb_layout(sb, d.len() as int),
        inode_live(d, sb, id),
        ps.valid(),
        ps.is_pointer(),
        i < POINTERS_PER_BLOCK,
        slot_block(d, sb, id, ps) == Some(pb),
    ensures
        child(ps, i).valid(),
        slot_block(d, sb, id, child(ps, i)) == nz(ptr(d, pb, i as int)),
        ptr(d, pb, i as int) != 0 ==> ptr(d, pb, i as int) < d.len(),
{
    if let Slot::Mid(l1) = ps {
        assert(Slot::Mid(l1).valid());
    }
    if ptr(d, pb, i as int) != 0 {
        lemma_owned_at(d, sb, o, id, child(ps, i), ptr(d, pb, i as int) as int);
    }
}

/// Growing a tree twice grows it.
pub proof fn lemma_grown_trans(d0: Seq<Seq<u8>>, d1: Seq<Seq<u8>>, d2: Seq<Seq<u8>>, sb: SuperBlock, id: int)
    requires
        tree_grown(d0, d1, sb, id),
        tree_grown(d1, d2, sb, id),
    ensures
        tree_grown(d0, d2, sb, id),
{
    assert forall|i: int, w2: int|
        #![trigger ino_word(d2, sb, i, w2)]
        inode_live(d0, sb, i) && 0 <= w2 < 32 && (i != id || w2 < 4) implies ino_word(d2, sb, i, w2)
            == ino_word(d0, sb, i, w2) by {
        assert(inode_live(d1, sb, i));
        assert(ino_word(d1, sb, i, w2) == ino_word(d0, sb, i, w2));
    }
    assert forall|i: int, s2: Slot|
        #![trigger slot_block(d2, sb, i, s2)]
        inode_live(d0, sb, i) && s2.valid() && (i != id || slot_block(d0, sb, i, s2) is Some) implies slot_block(
            d2,
            sb,
            i,
            s2,
        ) == slot_block(d0, sb, i, s2) by {
        assert(inode_live(d1, sb, i));
        assert(slot_block(d1, sb, i, s2) == slot_block(d0, sb, i, s2));
    }
    assert forall|i: int, p: int|
        #![trigger file_byte(d2, sb, i, p)]
        inode_live(d0, sb, i) && 0 <= p < MAX_FILE_SIZE implies file_byte(d2, sb, i, p) == file_byte(
            d0,
            sb,
            i,
            p,
        ) by {
        assert(inode_live(d1, sb, i));
        assert(file_byte(d1, sb, i, p) == file_byte(d0, sb, i, p));
    }
    assert forall|i: int| #![trigger file_size(d2, sb, i)] inode_live(d0, sb, i) implies file_size(d2, sb, i)
        == file_size(d0, sb, i) by {
        assert(inode_live(d1, sb, i));
        assert(file_size(d1, sb, i) == file_size(d0, sb, i));
    }
}

/// Sizes stay bounded when every live file keeps its size except `id`, whose new
/// size is bounded.
pub proof fn lemma_sizes_resized(d1: Seq<Seq<u8>>, d2: Seq<Seq<u8>>, sb: SuperBlock, id: int)
    requires
        sizes_bounded(d1, sb),
        forall|i: int| #[trigger] inode_live(d2, sb, i) == inode_live(d1, sb, i),
        forall|i: int| #![trigger file_size(d2, sb, i)] inode_live(d1, sb, i) && i != id ==> file_size(d2, sb, i) == file_size(d1, sb, i),
        file_size(d2, sb, id) <= MAX_FILE_SIZE,
    ensures
        sizes_bounded(d2, sb),
{
    reveal(sizes_bounded);
    assert forall|i: int| #[trigger] inode_live(d2, sb, i) implies file_size(d2, sb, i) <= MAX_FILE_SIZE by {
        assert(inode_live(d1, sb, i));
    }
}

/// Sizes stay bounded when every live file keeps its size.
pub proof fn lemma_sizes_same(d1: Seq<Seq<u8>>, d2: Seq<Seq<u8>>, sb: SuperBlock)
    requires
        sizes_bounded(d1, sb),
        forall|i: int| #[trigger] inode_live(d2, sb, i) == inode_live(d1, sb, i),
        forall|i: int| #![trigger file_size(d2, sb, i)] inode_live(d1, sb, i) ==> file_size(d2, sb, i) == file_size(d1, sb, i),
    ensures
        sizes_bounded(d2, sb),
{
    reveal(sizes_bounded);
    assert forall|i: int| #[trigger] inode_live(d2, sb, i) implies file_size(d2, sb, i) <= MAX_FILE_SIZE by {
        assert(inode_live(d1, sb, i));
    }
}

/// Writing file `id`'s bytes from `pos` up to `pos2` widens its tail window from
/// `[lo, pos)` to `[lo, pos2)`.
pub proof fn lemma_tails_widen(d1: Seq<Seq<u8>>, d2: Seq<Seq<u8>>, sb: SuperBlock, id: int, lo: int, pos: int, pos2: int)
    requires
        tails_zero_but(d1, sb, id, lo, pos),
        lo <= pos <= pos2,
        forall|i: int| #[trigger] inode_live(d2, sb, i) == inode_live(d1, sb, i),
        forall|i: int| #![trigger file_size(d2, sb, i)] inode_live(d1, sb, i) ==> file_size(d2, sb, i) == file_size(d1, sb, i),
        forall|i: int, p: int|
            #![trigger file_byte(d2, sb, i, p)]
            inode_live(d1, sb, i) && 0 <= p < MAX_FILE_SIZE && !(i == id && pos <= p < pos2) ==> file_byte(d2, sb, i, p)
                == file_byte(d1, sb, i, p),
    ensures
        tails_zero_but(d2, sb, id, lo, pos2),
{
    reveal(tails_zero_but);
    assert forall|i: int, p: int|
        #![trigger file_byte(d2, sb, i, p)]
        inode_live(d2, sb, i) && file_size(d2, sb, i) <= p < MAX_FILE_SIZE && !(i == id && lo <= p < pos2)
            implies file_byte(d2, sb, i, p) == 0 by {
        assert(inode_live(d1, sb, i));
        assert(file_byte(d1, sb, i, p) == 0);
    }
}

/// Once file `id` is at least as long as its tail window reaches, the window can go.
pub proof fn lemma_tails_close(d1: Seq<Seq<u8>>, d2: Seq<Seq<u8>>, sb: SuperBlock, id: int, lo: int, hi: int)
    requires
        tails_zero_but(d1, sb, id, lo, hi),
        forall|i: int| #[trigger] inode_live(d2, sb, i) == inode_live(d1, sb, i),
        forall|i: int| #![trigger file_size(d2, sb, i)] inode_live(d1, sb, i) && i != id ==> file_size(d2, sb, i) == file_size(d1, sb, i),
        file_size(d2, sb, id) >= file_size(d1, sb, id),
        lo >= hi || file_size(d2, sb, id) >= hi,
        forall|i: int, p: int|
            #![trigger file_byte(d2, sb, i, p)]
            inode_live(d1, sb, i) && 0 <= p < MAX_FILE_SIZE ==> file_byte(d2, sb, i, p) == file_byte(d1, sb, i, p),
    ensures
        tails_zero_but(d2, sb, 0, 0, 0),
{
    reveal(tails_zero_but);
    assert forall|i: int, p: int|
        #![trigger file_byte(d2, sb, i, p)]
        inode_live(d2, sb, i) && file_size(d2, sb, i) <= p < MAX_FILE_SIZE && !(i == 0 && 0 <= p < 0)
            implies file_byte(d2, sb, i, p) == 0 by {
        assert(inode_live(d1, sb, i));
        assert(file_byte(d1, sb, i, p) == 0);
    }
}

/// `d` is `d0` with `w`'s first `pos - lo` bytes written into file `id` at `lo`: every
/// file lives, keeps its record's first words and reads as before except there, and
/// tails read as zeros outside what was written.
pub open spec fn write_progress(
    d0: Seq<Seq<u8>>,
    d: Seq<Seq<u8>>,
    sb: SuperBlock,
    id: int,
    lo: int,
    pos: int,
    w: Seq<u8>,
) -> bool {
    &&& tails_zero_but(d, sb, id, lo, pos)
    &&& forall|i: int| #[trigger] inode_live(d, sb, i) == inode_live(d0, sb, i)
    &&& forall|i: int, wd: int|
        #![trigger ino_word(d, sb, i, wd)]
        inode_live(d0, sb, i) && 0 <= wd < 4 ==> ino_word(d, sb, i, wd) == ino_word(d0, sb, i, wd)
    &&& forall|i: int, p: int|
        #![trigger file_byte(d, sb, i, p)]
        inode_live(d0, sb, i) && 0 <= p < MAX_FILE_SIZE ==> file_byte(d, sb, i, p) == if i == id && lo
            <= p < pos {
            w[p - lo]
        } else {
            file_byte(d0, sb, i, p)
        }
}

/// Every slot of every live inode other than `id` holds on `d` what it held on `d0`.
pub open spec fn others_slots_kept(d0: Seq<Seq<u8>>, d: Seq<Seq<u8>>, sb: SuperBlock, id: int) -> bool {
    forall|i: int, s: Slot|
        #![trigger slot_block(d, sb, i, s)]
        inode_live(d0, sb, i) && i != id && s.valid() ==> slot_block(d, sb, i, s) == slot_block(d0, sb, i, s)
}

/// Keeping the other inodes' slots is transitive across a change that keeps them
/// and keeps which inodes live.
pub proof fn lemma_others_kept_trans(d0: Seq<Seq<u8>>, d1: Seq<Seq<u8>>, d2: Seq<Seq<u8>>, sb: SuperBlock, id: int)
    requires
        others_slots_kept(d0, d1, sb, id),
        forall|i: int| #[trigger] inode_live(d1, sb, i) == inode_live(d0, sb, i),
        forall|i: int, s: Slot|
            #![trigger slot_block(d2, sb, i, s)]
            inode_live(d1, sb, i) && i != id && s.valid() ==> slot_block(d2, sb, i, s) == slot_block(d1, sb, i, s),
    ensures
        others_slots_kept(d0, d2, sb, id),
{
    assert forall|i: int, s: Slot|
        #![trigger slot_block(d2, sb, i, s)]
        inode_live(d0, sb, i) && i != id && s.valid() implies slot_block(d2, sb, i, s) == slot_block(d0, sb, i, s) by {
        assert(inode_live(d1, sb, i));
        assert(slot_block(d1, sb, i, s) == slot_block(d0, sb, i, s));
    }
}

/// One step of a write: growing the tree for file block `k`, then copying the chunk
/// of `w` that belongs there, extends the progress from `pos` to `pos + n`.
#[verifier::spinoff_prover]
pub proof fn lemma_write_step(
    d0: Seq<Seq<u8>>,
    d1: Seq<Seq<u8>>,
    d2: Seq<Seq<u8>>,
    d3: Seq<Seq<u8>>,
    sb: SuperBlock,
    id: int,
    lo: int,
    pos: int,
    n: int,
    w: Seq<u8>,
)
    requires
        write_progress(d0, d1, sb, id, lo, pos, w),
        inode_live(d0, sb, id),
        tree_grown(d1, d2, sb, id),
        0 <= lo <= pos,
        0 < n,
        pos % 512 + n <= 512,
        pos + n - lo <= w.len(),
        forall|i: int| #[trigger] inode_live(d3, sb, i) == inode_live(d2, sb, i),
        same_words_but(d2, d3, sb, -1, -1),
        forall|i: int, p: int|
            #![trigger file_byte(d3, sb, i, p)]
            inode_live(d2, sb, i) && 0 <= p < MAX_FILE_SIZE ==> file_byte(d3, sb, i, p) == if (i == id
                && p / BLOCK_SIZE as int == pos / 512 && pos % 512 <= (p % BLOCK_SIZE as int) && (p
                % BLOCK_SIZE as int) < pos % 512 + n) {
                w.subrange(pos - lo, pos - lo + n)[p % BLOCK_SIZE as int - pos % 512]
            } else {
                file_byte(d2, sb, i, p)
            },
    ensures
        write_progress(d0, d3, sb, id, lo, pos + n, w),
{
    assert forall|i: int, p: int|
        #![trigger file_byte(d3, sb, i, p)]
        inode_live(d0, sb, i) && 0 <= p < MAX_FILE_SIZE implies file_byte(d3, sb, i, p) == if i == id
            && lo <= p < pos + n {
            w[p - lo]
        } else {
            file_byte(d0, sb, i, p)
        } by {
        assert(inode_live(d1, sb, i));
        assert(file_byte(d2, sb, i, p) == file_byte(d1, sb, i, p));
        if i == id {
            vstd::arithmetic::div_mod::lemma_fundamental_div_mod(p, 512);
            vstd::arithmetic::div_mod::lemma_fundamental_div_mod(pos, 512);
            if pos <= p < pos + n {
                lemma_same_block(pos, p);
            }
        }
    }
    assert forall|i: int| #![trigger file_size(d3, sb, i)] inode_live(d1, sb, i) implies file_size(d3, sb, i)
        == file_size(d1, sb, i) by {
        assert(ino_word(d2, sb, i, 1) == ino_word(d1, sb, i, 1));
        assert(ino_word(d3, sb, i, 1) == ino_word(d2, sb, i, 1));
    }
    assert forall|i: int, p: int|
        #![trigger file_byte(d3, sb, i, p)]
        inode_live(d1, sb, i) && 0 <= p < MAX_FILE_SIZE && !(i == id && pos <= p < pos + n) implies file_byte(
            d3,
            sb,
            i,
            p,
        ) == file_byte(d1, sb, i, p) by {
        assert(inode_live(d0, sb, i));
    }
    lemma_tails_widen(d1, d3, sb, id, lo, pos, pos + n);
    assert forall|i: int, wd: int|
        #![trigger ino_word(d3, sb, i, wd)]
        inode_live(d0, sb, i) && 0 <= wd < 4 implies ino_word(d3, sb, i, wd) == ino_word(d0, sb, i, wd) by {
        assert(inode_live(d1, sb, i));
        assert(ino_word(d2, sb, i, wd) == ino_word(d1, sb, i, wd));
    }
}

/// A live file reads zero past its end.
pub proof fn lemma_tail_zero_at(d: Seq<Seq<u8>>, sb: SuperBlock, id: int, p: int)
    requires
        tails_zero_but(d, sb, 0, 0, 0),
        inode_live(d, sb, id),
        file_size(d, sb, id) <= p < MAX_FILE_SIZE,
    ensures
        file_byte(d, sb, id, p) == 0,
{
    reveal(tails_zero_but);
}

/// Finishing a write: the file's size becomes at least the end of what was written,
/// and then its contents are the old contents with the write applied.
#[verifier::spinoff_prover]
pub proof fn lemma_write_finish(
    d0: Seq<Seq<u8>>,
    d4: Seq<Seq<u8>>,
    d5: Seq<Seq<u8>>,
    sb: SuperBlock,
    id: int,
    lo: int,
    pos: int,
    w: Seq<u8>,
)
    requires
        tails_zero_but(d0, sb, 0, 0, 0),
        sizes_bounded(d0, sb),
        inode_live(d0, sb, id),
        write_progress(d0, d4, sb, id, lo, pos, w),
        0 <= lo <= pos <= MAX_FILE_SIZE,
        pos - lo <= w.len(),
        forall|i: int| #[trigger] inode_live(d5, sb, i) == inode_live(d4, sb, i),
        forall|i: int, wd: int|
            #![trigger ino_word(d5, sb, i, wd)]
            inode_live(d4, sb, i) && 0 <= wd < 4 && !(i == id && wd == 1) ==> ino_word(d5, sb, i, wd)
                == ino_word(d4, sb, i, wd),
        forall|i: int, p: int|
            #![trigger file_byte(d5, sb, i, p)]
            inode_live(d4, sb, i) && 0 <= p < MAX_FILE_SIZE ==> file_byte(d5, sb, i, p) == file_byte(d4, sb, i, p),
        pos > lo ==> file_size(d5, sb, id) == if file_size(d0, sb, id) >= pos {
            file_size(d0, sb, id)
        } else {
            pos
        },
        pos == lo ==> file_size(d5, sb, id) == file_size(d4, sb, id),
    ensures
        tails_zero_but(d5, sb, 0, 0, 0),
        sizes_bounded(d5, sb),
        file_bytes(d5, sb, id) == spec_write(file_bytes(d0, sb, id), lo, w.take(pos - lo)),
        forall|i: int| inode_live(d0, sb, i) && i != id ==> #[trigger] file_bytes(d5, sb, i) == file_bytes(d0, sb, i),
        forall|i: int|
            inode_live(d0, sb, i) ==> #[trigger] ino_word(d5, sb, i, 0) == ino_word(d0, sb, i, 0)
                && ino_word(d5, sb, i, 2) == ino_word(d0, sb, i, 2),
{
    lemma_write_finish_shape(d0, d4, d5, sb, id, lo, pos, w);
    assert(inode_live(d5, sb, id));
    lemma_size_bounded(d5, sb, id);
    lemma_write_finish_bytes(d0, d4, d5, sb, id, lo, pos, w);
}

/// The shape half of finishing a write: tails, sizes, untouched files and records.
#[verifier::spinoff_prover]
pub proof fn lemma_write_finish_shape(
    d0: Seq<Seq<u8>>,
    d4: Seq<Seq<u8>>,
    d5: Seq<Seq<u8>>,
    sb: SuperBlock,
    id: int,
    lo: int,
    pos: int,
    w: Seq<u8>,
)
    requires
        sizes_bounded(d0, sb),
        inode_live(d0, sb, id),
        write_progress(d0, d4, sb, id, lo, pos, w),
        0 <= lo <= pos <= MAX_FILE_SIZE,
        forall|i: int| #[trigger] inode_live(d5, sb, i) == inode_live(d4, sb, i),
        forall|i: int, wd: int|
            #![trigger ino_word(d5, sb, i, wd)]
            inode_live(d4, sb, i) && 0 <= wd < 4 && !(i == id && wd == 1) ==> ino_word(d5, sb, i, wd)
                == ino_word(d4, sb, i, wd),
        forall|i: int, p: int|
            #![trigger file_byte(d5, sb, i, p)]
            inode_live(d4, sb, i) && 0 <= p < MAX_FILE_SIZE ==> file_byte(d5, sb, i, p) == file_byte(d4, sb, i, p),
        pos > lo ==> file_size(d5, sb, id) == if file_size(d0, sb, id) >= pos {
            file_size(d0, sb, id)
        } else {
            pos
        },
        pos == lo ==> file_size(d5, sb, id) == file_size(d4, sb, id),
    ensures
        tails_zero_but(d5, sb, 0, 0, 0),
        sizes_bounded(d5, sb),
        forall|i: int| inode_live(d0, sb, i) && i != id ==> #[trigger] file_bytes(d5, sb, i) == file_bytes(d0, sb, i),
        forall|i: int|
            inode_live(d0, sb, i) ==> #[trigger] ino_word(d5, sb, i, 0) == ino_word(d0, sb, i, 0)
                && ino_word(d5, sb, i, 2) == ino_word(d0, sb, i, 2),
{
    lemma_size_bounded(d0, sb, id);
    assert forall|i: int| #![trigger file_size(d5, sb, i)] inode_live(d4, sb, i) && i != id implies file_size(d5, sb, i)
        == file_size(d4, sb, i) by {
        assert(ino_word(d5, sb, i, 1) == ino_word(d4, sb, i, 1));
    }
    assert forall|i: int| #![trigger file_size(d4, sb, i)] inode_live(d0, sb, i) implies file_size(d4, sb, i)
        == file_size(d0, sb, i) by {
        assert(ino_word(d4, sb, i, 1) == ino_word(d0, sb, i, 1));
    }
    lemma_sizes_same(d0, d4, sb);
    lemma_sizes_resized(d4, d5, sb, id);
    lemma_tails_close(d4, d5, sb, id, lo, pos);
    assert forall|i: int| inode_live(d0, sb, i) && i != id implies #[trigger] file_bytes(d5, sb, i) == file_bytes(d0, sb, i) by {
        lemma_size_bounded(d0, sb, i);
        assert forall|p: int| 0 <= p < file_size(d5, sb, i) implies #[trigger] file_byte(d5, sb, i, p)
            == file_byte(d0, sb, i, p) by {
            assert(file_byte(d4, sb, i, p) == file_byte(d0, sb, i, p));
        }
        assert(file_bytes(d5, sb, i) =~= file_bytes(d0, sb, i));
    }
    assert forall|i: int| inode_live(d0, sb, i) implies #[trigger] ino_word(d5, sb, i, 0) == ino_word(d0, sb, i, 0)
        && ino_word(d5, sb, i, 2) == ino_word(d0, sb, i, 2) by {
        assert(ino_word(d4, sb, i, 0) == ino_word(d0, sb, i, 0));
        assert(ino_word(d4, sb, i, 2) == ino_word(d0, sb, i, 2));
    }
}

/// The contents half of finishing a write.
#[verifier::spinoff_prover]
pub proof fn lemma_write_finish_bytes(
    d0: Seq<Seq<u8>>,
    d4: Seq<Seq<u8>>,
    d5: Seq<Seq<u8>>,
    sb: SuperBlock,
    id: int,
    lo: int,
    pos: int,
    w: Seq<u8>,
)
    requires
        tails_zero_but(d0, sb, 0, 0, 0),
        inode_live(d0, sb, id),
        write_progress(d0, d4, sb, id, lo, pos, w),
        0 <= lo <= pos <= MAX_FILE_SIZE,
        pos - lo <= w.len(),
        forall|i: int, p: int|
            #![trigger file_byte(d5, sb, i, p)]
            inode_live(d4, sb, i) && 0 <= p < MAX_FILE_SIZE ==> file_byte(d5, sb, i, p) == file_byte(d4, sb, i, p),
        file_size(d5, sb, id) <= MAX_FILE_SIZE,
        pos > lo ==> file_size(d5, sb, id) == if file_size(d0, sb, id) >= pos {
            file_size(d0, sb, id)
        } else {
            pos
        },
        pos == lo ==> file_size(d5, sb, id) == file_size(d4, sb, id),
    ensures
        file_bytes(d5, sb, id) == spec_write(file_bytes(d0, sb, id), lo, w.take(pos - lo)),
{
    assert(file_size(d4, sb, id) == file_size(d0, sb, id)) by {
        assert(ino_word(d4, sb, id, 1) == ino_word(d0, sb, id, 1));
    }
    let c = file_bytes(d0, sb, id);
    let wt = w.take(pos - lo);
    assert forall|p: int| 0 <= p < file_size(d5, sb, id) implies #[trigger] file_byte(d5, sb, id, p)
        == spec_write(c, lo, wt)[p] by {
        assert(inode_live(d4, sb, id));
        assert(file_byte(d4, sb, id, p) == if lo <= p < pos { w[p - lo] } else { file_byte(d0, sb, id, p) });
        if !(lo <= p < pos) && p >= c.len() {
            lemma_tail_zero_at(d0, sb, id, p);
        }
    }
    assert(file_bytes(d5, sb, id) =~= spec_write(c, lo, wt));
}

/// The contents of a file after `w` is written at `off`: `w` over the old bytes,
/// the file growing to hold it, any gap reading as zeros.
pub open spec fn spec_write(c: Seq<u8>, off: int, w: Seq<u8>) -> Seq<u8> {
    if w.len() == 0 {
        c
    } else {
        let n = if c.len() >= off + w.len() { c.len() as int } else { off + w.len() };
        Seq::new(
            n as nat,
            |p: int|
                if off <= p < off + w.len() {
                    w[p - off]
                } else if p < c.len() {
                    c[p]
                } else {
                    0
                },
        )
    }
}

/// What a write leaves, a read gives back: the written bytes at their offset, the old
/// bytes elsewhere, and zeros in any gap the write opened past the old end. The file
/// grows to hold the write, and no further.
pub proof fn lemma_read_after_write(c: Seq<u8>, off: int, w: Seq<u8>)
    requires
        0 <= off,
    ensures
        w.len() == 0 ==> spec_write(c, off, w) == c,
        w.len() > 0 ==> spec_write(c, off, w).len() == if c.len() >= off + w.len() {
            c.len() as int
        } else {
            off + w.len()
        },
        w.len() > 0 ==> spec_write(c, off, w).subrange(off, off + w.len()) == w,
        forall|p: int|
            0 <= p < c.len() && !(off <= p < off + w.len()) ==> #[trigger] spec_write(c, off, w)[p] == c[p],
        w.len() > 0 ==> forall|p: int| c.len() <= p < off ==> #[trigger] spec_write(c, off, w)[p] == 0,
{
    if w.len() > 0 {
        assert(spec_write(c, off, w).subrange(off, off + w.len()) =~= w);
    }
}

/// Slot `t` is `s` or lies below it.
pub open spec fn under(t: Slot, s: Slot) -> bool {
    t == s || match s {
        Slot::Indirect => t is Single,
        Slot::Double => t is Mid || t is Leaf,
        Slot::Mid(l1) => t matches Slot::Leaf(m, _) && m == l1,
        _ => false,
    }
}

/// Block `b` is in use, reached by nothing, and was last recorded at slot `t` of
/// inode `id`: a block cut loose from its tree, waiting to be freed.
pub open spec fn loose(d: Seq<Seq<u8>>, sb: SuperBlock, o: Map<int, (int, Slot)>, id: int, b: int, t: Slot) -> bool {
    &&& data_used(d, sb, b)
    &&& not_reached(d, sb, b)
    &&& o.contains_key(b)
    &&& o[b] == (id, t)
}

/// Pointer block `q`, cut loose from slot `t` (single-indirect or a middle block),
/// and every block it points to are loose.
pub open spec fn loose_ptr1(d: Seq<Seq<u8>>, sb: SuperBlock, o: Map<int, (int, Slot)>, id: int, q: int, t: Slot) -> bool {
    &&& loose(d, sb, o, id, q, t)
    &&& t == Slot::Indirect || t is Mid
    &&& t.valid()
    &&& forall|e: int|
        0 <= e < POINTERS_PER_BLOCK && #[trigger] ptr(d, q, e) != 0 ==> loose(
            d,
            sb,
            o,
            id,
            ptr(d, q, e) as int,
            child(t, e as usize),
        )
}

/// Double-indirect block `q`, cut loose, with everything below it.
pub open spec fn loose_ptr2(d: Seq<Seq<u8>>, sb: SuperBlock, o: Map<int, (int, Slot)>, id: int, q: int) -> bool {
    &&& loose(d, sb, o, id, q, Slot::Double)
    &&& forall|e: int|
        0 <= e < POINTERS_PER_BLOCK && #[trigger] ptr(d, q, e) != 0 ==> loose_ptr1(
            d,
            sb,
            o,
            id,
            ptr(d, q, e) as int,
            Slot::Mid(e as usize),
        )
}

/// Freeing a loose data block clears its bit and changes no file, record or tree,
/// nor any other block in or past the data region.
#[verifier::spinoff_prover]
pub proof fn lemma_free_bit(d: Seq<Seq<u8>>, sb: SuperBlock, o: Map<int, (int, Slot)>, b: int)
    requires
        blocks_sized(d),
        sb_layout(sb, d.len() as int),
        owned(d, sb, o),
        data_used(d, sb, b),
        not_reached(d, sb, b),
    ensures
        ({
            let d2 = with_bit(d, sb.data_bitmap_start as int, b - sb.data_start, false);
            &&& d2.len() == d.len()
            &&& blocks_sized(d2)
            &&& d2[0] == d[0]
            &&& owned(d2, sb, o)
            &&& files_kept(d, d2, sb)
            &&& same_words_but(d, d2, sb, -1, -1)
            &&& same_slots_but(d, d2, sb, -1, Slot::Indirect)
            &&& !data_used(d2, sb, b)
            &&& forall|b2: int| b2 != b ==> #[trigger] data_used(d2, sb, b2) == data_used(d, sb, b2)
            &&& forall|x: int| sb.data_start <= x < d.len() ==> #[trigger] d2[x] == d[x]
        }),
{
    let k = b - sb.data_start;
    let start = sb.data_bitmap_start as int;
    let d2 = with_bit(d, start, k, false);
    let blk = start + k / 4096;
    assert(k / 4096 < sb.data_bitmap_len) by (nonlinear_arith)
        requires
            0 <= k < sb.data_len,
            sb.data_len <= sb.data_bitmap_len * 4096,
    ;
    lemma_with_bit(d, start, k, false, k, sb.data_bitmap_len as int);
    assert(d2 =~= d.update(blk, d2[blk]));
    lemma_data_bitmap_outside(d, sb, o, blk);
    lemma_frame(d, sb, o, blk, d2[blk]);
    assert forall|b2: int| b2 != b implies #[trigger] data_used(d2, sb, b2) == data_used(d, sb, b2) by {
        if sb.data_start <= b2 < sb.data_start + sb.data_len {
            assert(b2 - sb.data_start < sb.data_bitmap_len * 4096);
            lemma_with_bit(d, start, k, false, b2 - sb.data_start, sb.data_bitmap_len as int);
        }
    }
    assert forall|i: int| 0 <= i < d2.len() implies #[trigger] d2[i].len() == BLOCK_SIZE by {}
    lemma_bytes_below_data(d, d2, sb, o, blk);
    reveal(owned);
    assert forall|id: int, s: Slot, b2: int|
        #![trigger slot_block(d2, sb, id, s), owned_at(d2, sb, o, id, s, b2)]
        inode_live(d2, sb, id) && s.valid() && slot_block(d2, sb, id, s) == Some(b2) implies owned_at(
            d2,
            sb,
            o,
            id,
            s,
            b2,
        ) by {
        assert(slot_block(d, sb, id, s) == Some(b2));
        assert(owned_at(d, sb, o, id, s, b2));
    }
    assert forall|i: int| #![trigger file_size(d2, sb, i)] inode_live(d, sb, i) implies file_size(d2, sb, i)
        == file_size(d, sb, i) by {
        assert(ino_word(d2, sb, i, 1) == ino_word(d, sb, i, 1));
    }
}

/// A loose block stays loose when another loose block is freed.
pub proof fn lemma_loose_kept(
    d: Seq<Seq<u8>>,
    d2: Seq<Seq<u8>>,
    sb: SuperBlock,
    o: Map<int, (int, Slot)>,
    id: int,
    c: int,
    t: Slot,
    b: int,
)
    requires
        loose(d, sb, o, id, c, t),
        c != b,
        forall|i: int| #[trigger] inode_live(d2, sb, i) == inode_live(d, sb, i),
        same_slots_but(d, d2, sb, -1, Slot::Indirect),
        forall|b2: int| b2 != b ==> #[trigger] data_used(d2, sb, b2) == data_used(d, sb, b2),
    ensures
        loose(d2, sb, o, id, c, t),
{
    assert forall|i: int, s: Slot| inode_live(d2, sb, i) && s.valid() implies #[trigger] slot_block(d2, sb, i, s)
        != Some(c) by {
        assert(inode_live(d, sb, i));
        assert(slot_block(d2, sb, i, s) == slot_block(d, sb, i, s));
    }
}

/// `d2` is `d` with slot `s` of inode `id` cut off: it and everything below it reach
/// nothing, every other slot, every block's use and every inode's liveness as before.
pub open spec fn cut(d: Seq<Seq<u8>>, d2: Seq<Seq<u8>>, sb: SuperBlock, id: int, s: Slot) -> bool {
    &&& forall|i: int| #[trigger] inode_live(d2, sb, i) == inode_live(d, sb, i)
    &&& forall|i: int, t: Slot|
        #![trigger slot_block(d2, sb, i, t)]
        inode_live(d, sb, i) && t.valid() ==> slot_block(d2, sb, i, t) == if i == id && under(t, s) {
            None
        } else {
            slot_block(d, sb, i, t)
        }
    &&& forall|b: int| #[trigger] data_used(d2, sb, b) == data_used(d, sb, b)
}

/// `owned` survives cutting a slot off.
pub proof fn lemma_owned_cut(d: Seq<Seq<u8>>, d2: Seq<Seq<u8>>, sb: SuperBlock, o: Map<int, (int, Slot)>, id: int, s: Slot)
    requires
        owned(d, sb, o),
        cut(d, d2, sb, id, s),
    ensures
        owned(d2, sb, o),
{
    reveal(owned);
    assert forall|i: int, t: Slot, b2: int|
        #![trigger slot_block(d2, sb, i, t), owned_at(d2, sb, o, i, t, b2)]
        inode_live(d2, sb, i) && t.valid() && slot_block(d2, sb, i, t) == Some(b2) implies owned_at(
            d2,
            sb,
            o,
            i,
            t,
            b2,
        ) by {
        assert(inode_live(d, sb, i));
        assert(slot_block(d, sb, i, t) == Some(b2));
        assert(owned_at(d, sb, o, i, t, b2));
    }
}

/// A block that a slot at or below the cut slot reached is loose after the cut.
pub proof fn lemma_loose_cut(
    d: Seq<Seq<u8>>,
    d2: Seq<Seq<u8>>,
    sb: SuperBlock,
    o: Map<int, (int, Slot)>,
    id: int,
    s: Slot,
    t: Slot,
    c: int,
)
    requires
        owned(d, sb, o),
        inode_live(d, sb, id),
        t.valid(),
        slot_block(d, sb, id, t) == Some(c),
        under(t, s),
        cut(d, d2, sb, id, s),
    ensures
        loose(d2, sb, o, id, c, t),
{
    lemma_owned_at(d, sb, o, id, t, c);
    assert forall|i: int, t2: Slot| inode_live(d2, sb, i) && t2.valid() implies #[trigger] slot_block(d2, sb, i, t2)
        != Some(c) by {
        assert(inode_live(d, sb, i));
        if slot_block(d2, sb, i, t2) == Some(c) {
            assert(slot_block(d, sb, i, t2) == Some(c));
            lemma_owned_at(d, sb, o, i, t2, c);
        }
    }
}

/// Files read as before after a cut, except that what lies below the cut reads as
/// zeros, provided no data block a file still reaches changed.
pub proof fn lemma_bytes_cut(d: Seq<Seq<u8>>, d2: Seq<Seq<u8>>, sb: SuperBlock, o: Map<int, (int, Slot)>, id: int, s: Slot)
    requires
        owned(d, sb, o),
        cut(d, d2, sb, id, s),
        forall|lb: int|
            #![trigger d2[lb]]
            (exists|i: int, ls: Slot|
                inode_live(d, sb, i) && ls.valid() && !ls.is_pointer() && #[trigger] slot_block(d, sb, i, ls) == Some(lb))
                ==> d2[lb] == d[lb],
    ensures
        forall|i: int, p: int|
            #![trigger file_byte(d2, sb, i, p)]
            inode_live(d, sb, i) && 0 <= p < MAX_FILE_SIZE ==> file_byte(d2, sb, i, p) == if i == id && under(
                leaf_slot(p / BLOCK_SIZE as int),
                s,
            ) {
                0
            } else {
                file_byte(d, sb, i, p)
            },
{
    assert forall|i: int, p: int|
        #![trigger file_byte(d2, sb, i, p)]
        inode_live(d, sb, i) && 0 <= p < MAX_FILE_SIZE implies file_byte(d2, sb, i, p) == if i == id && under(
            leaf_slot(p / BLOCK_SIZE as int),
            s,
        ) {
            0
        } else {
            file_byte(d, sb, i, p)
        } by {
        let kk = p / BLOCK_SIZE as int;
        lemma_leaf_slot(kk);
        let ls = leaf_slot(kk);
        if let Some(lb) = slot_block(d, sb, i, ls) {
            if !(i == id && under(ls, s)) {
                assert(d2[lb] == d[lb]);
            }
        }
    }
}

/// Zeroing the record word that holds slot `s` of live inode `id` cuts `s` off.
#[verifier::spinoff_prover]
pub proof fn lemma_cut_word(d: Seq<Seq<u8>>, sb: SuperBlock, o: Map<int, (int, Slot)>, id: int, s: Slot)
    requires
        blocks_sized(d),
        sb_layout(sb, d.len() as int),
        owned(d, sb, o),
        inode_live(d, sb, id),
        s.valid(),
        slot_word(s) >= 0,
    ensures
        ({
            let ib = ino_block(sb, id);
            let d2 = d.update(ib, splice(d[ib], ino_off(id) + 4 * slot_word(s), spec_le32_bytes(0)));
            &&& d2.len() == d.len()
            &&& blocks_sized(d2)
            &&& d2[0] == d[0]
            &&& cut(d, d2, sb, id, s)
            &&& same_words_but(d, d2, sb, id, slot_word(s))
            &&& owned(d2, sb, o)
            &&& forall|x: int| sb.data_start <= x < d.len() ==> #[trigger] d2[x] == d[x]
        }),
{
    let w = slot_word(s);
    let ib = ino_block(sb, id);
    let d2 = d.update(ib, splice(d[ib], ino_off(id) + 4 * w, spec_le32_bytes(0)));
    lemma_word_update(d, sb, id, w, 0);
    assert forall|i: int| #[trigger] inode_live(d2, sb, i) == inode_live(d, sb, i) by {
        lemma_frame_live(d, sb, ib, d2[ib], i);
    }
    assert forall|i: int, t: Slot|
        #![trigger slot_block(d2, sb, i, t)]
        inode_live(d, sb, i) && t.valid() implies slot_block(d2, sb, i, t) == if i == id && under(t, s) {
            None
        } else {
            slot_block(d, sb, i, t)
        } by {
        let cut30 = i == id && s == Slot::Indirect;
        let cut31 = i == id && s == Slot::Double;
        assert(cut30 || ino_word(d2, sb, i, 30) == ino_word(d, sb, i, 30));
        assert(cut31 || ino_word(d2, sb, i, 31) == ino_word(d, sb, i, 31));
        match t {
            Slot::Direct(k) => {
                assert(ino_word(d2, sb, i, 4 + k) == if i == id && s == t { 0u32 } else { ino_word(d, sb, i, 4 + k) });
            },
            Slot::Single(j) => {
                if !cut30 {
                    if let Some(pb) = slot_block(d, sb, i, Slot::Indirect) {
                        lemma_owned_at(d, sb, o, i, Slot::Indirect, pb);
                    }
                }
            },
            Slot::Mid(l1) => {
                if !cut31 {
                    if let Some(pb) = slot_block(d, sb, i, Slot::Double) {
                        lemma_owned_at(d, sb, o, i, Slot::Double, pb);
                    }
                }
            },
            Slot::Leaf(l1, l2) => {
                if !cut31 {
                    assert(Slot::Mid(l1).valid());
                    if let Some(pb) = slot_block(d, sb, i, Slot::Double) {
                        lemma_owned_at(d, sb, o, i, Slot::Double, pb);
                        if let Some(m) = slot_block(d, sb, i, Slot::Mid(l1)) {
                            lemma_owned_at(d, sb, o, i, Slot::Mid(l1), m);
                        }
                    }
                }
            },
            _ => {},
        }
    }
    assert forall|b2: int| #[trigger] data_used(d2, sb, b2) == data_used(d, sb, b2) by {
        if sb.data_start <= b2 < sb.data_start + sb.data_len {
            assert((b2 - sb.data_start) / 4096 < sb.data_bitmap_len) by (nonlinear_arith)
                requires
                    0 <= b2 - sb.data_start < sb.data_len,
                    sb.data_len <= sb.data_bitmap_len * 4096,
            ;
        }
    }
    lemma_owned_cut(d, d2, sb, o, id, s);
    assert forall|i: int| 0 <= i < d2.len() implies #[trigger] d2[i].len() == BLOCK_SIZE by {}
}

/// Zeroing entry `j` of pointer block `pb`, held by slot `ps` of live inode `id`,
/// cuts the child slot off.
#[verifier::spinoff_prover]
pub proof fn lemma_cut_entry(d: Seq<Seq<u8>>, sb: SuperBlock, o: Map<int, (int, Slot)>, id: int, ps: Slot, pb: int, j: usize)
    requires
        blocks_sized(d),
        sb_layout(sb, d.len() as int),
        owned(d, sb, o),
        inode_live(d, sb, id),
        ps.valid(),
        ps.is_pointer(),
        j < POINTERS_PER_BLOCK,
        slot_block(d, sb, id, ps) == Some(pb),
    ensures
        ({
            let d2 = d.update(pb, splice(d[pb], 4 * j, spec_le32_bytes(0)));
            &&& d2.len() == d.len()
            &&& blocks_sized(d2)
            &&& d2[0] == d[0]
            &&& cut(d, d2, sb, id, child(ps, j))
            &&& same_words_but(d, d2, sb, -1, -1)
            &&& owned(d2, sb, o)
            &&& child(ps, j).valid()
        }),
{
    let s = child(ps, j);
    let d2 = d.update(pb, splice(d[pb], 4 * j, spec_le32_bytes(0)));
    lemma_owned_at(d, sb, o, id, ps, pb);
    lemma_ptr_update(d, pb, j as int, 0);
    assert forall|k: int| #[trigger] inode_live(d2, sb, k) == inode_live(d, sb, k) by {
        lemma_frame_live(d, sb, pb, d2[pb], k);
    }
    assert forall|k: int, w: int|
        #![trigger ino_word(d2, sb, k, w)]
        inode_live(d, sb, k) && 0 <= w < 32 && !(k == -1 && w == -1) implies ino_word(d2, sb, k, w)
            == ino_word(d, sb, k, w) by {
        lemma_frame_word(d, sb, pb, d2[pb], k, w);
    }
    if let Slot::Mid(l1) = ps {
        assert(Slot::Mid(l1).valid());
    }
    assert forall|k: int, t: Slot|
        #![trigger slot_block(d2, sb, k, t)]
        inode_live(d, sb, k) && t.valid() implies slot_block(d2, sb, k, t) == if k == id && under(t, s) {
            None
        } else {
            slot_block(d, sb, k, t)
        } by {
        assert(ino_word(d2, sb, k, 30) == ino_word(d, sb, k, 30));
        assert(ino_word(d2, sb, k, 31) == ino_word(d, sb, k, 31));
        match t {
            Slot::Direct(jj) => {
                assert(ino_word(d2, sb, k, 4 + jj) == ino_word(d, sb, k, 4 + jj));
            },
            Slot::Single(jj) => {
                if let Some(q) = slot_block(d, sb, k, Slot::Indirect) {
                    lemma_owned_at(d, sb, o, k, Slot::Indirect, q);
                    if q == pb {
                        assert(k == id && ps == Slot::Indirect);
                    }
                }
            },
            Slot::Mid(jj) => {
                if let Some(q) = slot_block(d, sb, k, Slot::Double) {
                    lemma_owned_at(d, sb, o, k, Slot::Double, q);
                    if q == pb {
                        assert(k == id && ps == Slot::Double);
                    }
                }
            },
            Slot::Leaf(l1, l2) => {
                assert(Slot::Mid(l1).valid());
                if let Some(q) = slot_block(d, sb, k, Slot::Double) {
                    lemma_owned_at(d, sb, o, k, Slot::Double, q);
                    if q == pb {
                        assert(k == id && ps == Slot::Double);
                        if let Some(m) = slot_block(d, sb, k, Slot::Mid(l1)) {
                            lemma_owned_at(d, sb, o, k, Slot::Mid(l1), m);
                        }
                    } else if let Some(m) = slot_block(d, sb, k, Slot::Mid(l1)) {
                        lemma_owned_at(d, sb, o, k, Slot::Mid(l1), m);
                        if m == pb {
                            assert(k == id && ps == Slot::Mid(l1));
                        }
                    }
                }
            },
            _ => {},
        }
    }
    assert forall|b2: int| #[trigger] data_used(d2, sb, b2) == data_used(d, sb, b2) by {
        if sb.data_start <= b2 < sb.data_start + sb.data_len {
            assert((b2 - sb.data_start) / 4096 < sb.data_bitmap_len) by (nonlinear_arith)
                requires
                    0 <= b2 - sb.data_start < sb.data_len,
                    sb.data_len <= sb.data_bitmap_len * 4096,
            ;
        }
    }
    lemma_owned_cut(d, d2, sb, o, id, s);
    assert forall|k: int| 0 <= k < d2.len() implies #[trigger] d2[k].len() == BLOCK_SIZE by {}
}

/// Every block that a live inode other than `id0` reaches is a data block in use,
/// reached from that one place only.
pub open spec fn owned_but(disk: Seq<Seq<u8>>, sb: SuperBlock, owner: Map<int, (int, Slot)>, id0: int) -> bool {
    forall|id: int, s: Slot, b: int|
        #![trigger slot_block(disk, sb, id, s), owned_at(disk, sb, owner, id, s, b)]
        id != id0 && inode_live(disk, sb, id) && s.valid() && slot_block(disk, sb, id, s) == Some(b)
            ==> owned_at(disk, sb, owner, id, s, b)
}

/// Live files other than `id0` fit the block tree.
pub open spec fn sizes_bounded_but(disk: Seq<Seq<u8>>, sb: SuperBlock, id0: int) -> bool {
    forall|id: int| #[trigger] inode_live(disk, sb, id) && id != id0 ==> file_size(disk, sb, id) <= MAX_FILE_SIZE
}

/// `d2` is `d1` with inode `id`'s record rewritten to `di` and nothing else changed.
pub open spec fn record_written(d1: Seq<Seq<u8>>, d2: Seq<Seq<u8>>, sb: SuperBlock, id: int, di: DiskInode) -> bool {
    let ib = ino_block(sb, id);
    &&& d2.len() == d1.len()
    &&& forall|q: int| 0 <= q < d1.len() && q != ib ==> #[trigger] d2[q] == d1[q]
    &&& d2[ib].len() == d1[ib].len()
    &&& forall|j: int|
        0 <= j < d1[ib].len() && !(ino_off(id) <= j < ino_off(id) + INODE_SIZE) ==> #[trigger] d2[ib][j] == d1[ib][j]
    &&& di.encoded_at(d2[ib], ino_off(id))
}

/// The record `di` holds no bytes and no blocks.
pub open spec fn record_empty(di: DiskInode) -> bool {
    &&& di.size == 0
    &&& forall|k: int| 0 <= k < DIRECT_COUNT ==> #[trigger] di.direct@[k] == 0
    &&& di.indirect == 0
    &&& di.double_indirect == 0
}

/// What holds of every live inode holds of every live inode but one.
pub proof fn lemma_but_from_all(d: Seq<Seq<u8>>, sb: SuperBlock, o: Map<int, (int, Slot)>, id: int)
    requires
        owned(d, sb, o),
        tails_zero_but(d, sb, 0, 0, 0),
        sizes_bounded(d, sb),
    ensures
        owned_but(d, sb, o, id),
        tails_zero_but(d, sb, id, 0, MAX_FILE_SIZE as int),
        sizes_bounded_but(d, sb, id),
{
    reveal(owned);
    reveal(tails_zero_but);
    reveal(sizes_bounded);
}

/// What holds of every live inode but one that is not live holds of every live inode.
pub proof fn lemma_all_from_but(d: Seq<Seq<u8>>, sb: SuperBlock, o: Map<int, (int, Slot)>, id: int)
    requires
        !inode_live(d, sb, id),
        owned_but(d, sb, o, id),
        tails_zero_but(d, sb, id, 0, MAX_FILE_SIZE as int),
        sizes_bounded_but(d, sb, id),
    ensures
        owned(d, sb, o),
        tails_zero_but(d, sb, 0, 0, 0),
        sizes_bounded(d, sb),
{
    reveal(owned);
    reveal(tails_zero_but);
    reveal(sizes_bounded);
}

/// Setting inode `id`'s bitmap bit to `v` makes it live or not and changes no
/// record, no block use, and no other inode's tree or bytes.
#[verifier::spinoff_prover]
pub proof fn lemma_inode_bit(d0: Seq<Seq<u8>>, sb: SuperBlock, o: Map<int, (int, Slot)>, id: int, v: bool)
    requires
        blocks_sized(d0),
        sb_layout(sb, d0.len() as int),
        0 <= id < sb.ninodes,
        owned_but(d0, sb, o, id),
        tails_zero_but(d0, sb, id, 0, MAX_FILE_SIZE as int),
        sizes_bounded_but(d0, sb, id),
    ensures
        ({
            let d1 = with_bit(d0, sb.inode_bitmap_start as int, id, v);
            &&& d1.len() == d0.len()
            &&& blocks_sized(d1)
            &&& d1[0] == d0[0]
            &&& forall|i: int| #[trigger] inode_live(d1, sb, i) == if i == id { v } else { inode_live(d0, sb, i) }
            &&& forall|i: int, w: int|
                #![trigger ino_word(d1, sb, i, w)]
                0 <= i < sb.ninodes ==> ino_word(d1, sb, i, w) == ino_word(d0, sb, i, w)
            &&& forall|b: int| #[trigger] data_used(d1, sb, b) == data_used(d0, sb, b)
            &&& forall|i: int, s: Slot|
                #![trigger slot_block(d1, sb, i, s)]
                i != id && inode_live(d0, sb, i) && s.valid() ==> slot_block(d1, sb, i, s) == slot_block(d0, sb, i, s)
            &&& forall|i: int, p: int|
                #![trigger file_byte(d1, sb, i, p)]
                i != id && inode_live(d0, sb, i) && 0 <= p < MAX_FILE_SIZE ==> file_byte(d1, sb, i, p) == file_byte(
                    d0,
                    sb,
                    i,
                    p,
                )
            &&& owned_but(d1, sb, o, id)
            &&& tails_zero_but(d1, sb, id, 0, MAX_FILE_SIZE as int)
            &&& sizes_bounded_but(d1, sb, id)
        }),
{
    let start = sb.inode_bitmap_start as int;
    let d1 = with_bit(d0, start, id, v);
    let blk = start + id / 4096;
    lemma_ino_bit_in_bitmap(sb, id, d0.len() as int);
    lemma_with_bit(d0, start, id, v, id, sb.inode_bitmap_len as int);
    assert(d1 =~= d0.update(blk, d1[blk]));
    assert forall|i: int| #[trigger] inode_live(d1, sb, i) == if i == id { v } else { inode_live(d0, sb, i) } by {
        if 0 <= i < sb.ninodes {
            lemma_ino_bit_in_bitmap(sb, i, d0.len() as int);
            lemma_with_bit(d0, start, id, v, i, sb.inode_bitmap_len as int);
        }
    }
    assert forall|i: int, w: int|
        #![trigger ino_word(d1, sb, i, w)]
        0 <= i < sb.ninodes implies ino_word(d1, sb, i, w) == ino_word(d0, sb, i, w) by {
        lemma_frame_word(d0, sb, blk, d1[blk], i, w);
    }
    assert forall|b: int| #[trigger] data_used(d1, sb, b) == data_used(d0, sb, b) by {
        if sb.data_start <= b < sb.data_start + sb.data_len {
            assert((b - sb.data_start) / 4096 < sb.data_bitmap_len) by (nonlinear_arith)
                requires
                    0 <= b - sb.data_start < sb.data_len,
                    sb.data_len <= sb.data_bitmap_len * 4096,
            ;
        }
    }
    assert forall|i: int, s: Slot|
        #![trigger slot_block(d1, sb, i, s)]
        i != id && inode_live(d0, sb, i) && s.valid() implies slot_block(d1, sb, i, s) == slot_block(d0, sb, i, s) by {
        assert(ino_word(d1, sb, i, 30) == ino_word(d0, sb, i, 30));
        assert(ino_word(d1, sb, i, 31) == ino_word(d0, sb, i, 31));
        match s {
            Slot::Direct(k) => {
                assert(ino_word(d1, sb, i, 4 + k) == ino_word(d0, sb, i, 4 + k));
            },
            Slot::Single(j) => {
                if let Some(pb) = slot_block(d0, sb, i, Slot::Indirect) {
                    assert(owned_at(d0, sb, o, i, Slot::Indirect, pb));
                }
            },
            Slot::Mid(l1) => {
                if let Some(pb) = slot_block(d0, sb, i, Slot::Double) {
                    assert(owned_at(d0, sb, o, i, Slot::Double, pb));
                }
            },
            Slot::Leaf(l1, l2) => {
                assert(Slot::Mid(l1).valid());
                if let Some(pb) = slot_block(d0, sb, i, Slot::Double) {
                    assert(owned_at(d0, sb, o, i, Slot::Double, pb));
                    if let Some(m) = slot_block(d0, sb, i, Slot::Mid(l1)) {
                        assert(owned_at(d0, sb, o, i, Slot::Mid(l1), m));
                    }
                }
            },
            _ => {},
        }
    }
    assert forall|i: int, p: int|
        #![trigger file_byte(d1, sb, i, p)]
        i != id && inode_live(d0, sb, i) && 0 <= p < MAX_FILE_SIZE implies file_byte(d1, sb, i, p) == file_byte(
            d0,
            sb,
            i,
            p,
        ) by {
        let kk = p / BLOCK_SIZE as int;
        lemma_leaf_slot(kk);
        let ls = leaf_slot(kk);
        assert(slot_block(d1, sb, i, ls) == slot_block(d0, sb, i, ls));
        if let Some(lb) = slot_block(d0, sb, i, ls) {
            assert(owned_at(d0, sb, o, i, ls, lb));
        }
    }
    assert forall|i: int, s: Slot, b: int|
        #![trigger slot_block(d1, sb, i, s), owned_at(d1, sb, o, i, s, b)]
        i != id && inode_live(d1, sb, i) && s.valid() && slot_block(d1, sb, i, s) == Some(b) implies owned_at(
            d1,
            sb,
            o,
            i,
            s,
            b,
        ) by {
        assert(slot_block(d0, sb, i, s) == Some(b));
        assert(owned_at(d0, sb, o, i, s, b));
    }
    reveal(tails_zero_but);
    assert forall|i: int, p: int|
        #![trigger file_byte(d1, sb, i, p)]
        inode_live(d1, sb, i) && file_size(d1, sb, i) <= p < MAX_FILE_SIZE && !(i == id && 0 <= p
            < MAX_FILE_SIZE) implies file_byte(d1, sb, i, p) == 0 by {
        assert(ino_word(d1, sb, i, 1) == ino_word(d0, sb, i, 1));
        assert(file_byte(d0, sb, i, p) == 0);
    }
    assert forall|i: int| #[trigger] inode_live(d1, sb, i) && i != id implies file_size(d1, sb, i) <= MAX_FILE_SIZE by {
        assert(ino_word(d1, sb, i, 1) == ino_word(d0, sb, i, 1));
    }
    assert forall|i: int| 0 <= i < d1.len() implies #[trigger] d1[i].len() == BLOCK_SIZE by {}
}

/// The shape half of rewriting inode `id`'s record with an empty one: liveness,
/// records, block use and trees.
#[verifier::spinoff_prover]
pub proof fn lemma_fresh_record_shape(
    d1: Seq<Seq<u8>>,
    d2: Seq<Seq<u8>>,
    sb: SuperBlock,
    o: Map<int, (int, Slot)>,
    id: int,
    di: DiskInode,
)
    requires
        blocks_sized(d1),
        sb_layout(sb, d1.len() as int),
        0 <= id < sb.ninodes,
        owned_but(d1, sb, o, id),
        record_written(d1, d2, sb, id, di),
        record_empty(di),
    ensures
        d2.len() == d1.len(),
        blocks_sized(d2),
        d2[0] == d1[0],
        forall|q: int| #[trigger] data_used(d1, sb, q) ==> d2[q] == d1[q],
        forall|i: int| #[trigger] inode_live(d2, sb, i) == inode_live(d1, sb, i),
        forall|i: int, w: int|
            #![trigger ino_word(d2, sb, i, w)]
            0 <= i < sb.ninodes && i != id && 0 <= w < 32 ==> ino_word(d2, sb, i, w) == ino_word(d1, sb, i, w),
        ino_word(d2, sb, id, 0) == di.type_,
        ino_word(d2, sb, id, 1) == 0,
        ino_word(d2, sb, id, 2) == di.nlink,
        forall|s: Slot| s.valid() ==> #[trigger] slot_block(d2, sb, id, s) is None,
        forall|b: int| #[trigger] data_used(d2, sb, b) == data_used(d1, sb, b),
        forall|i: int, s: Slot|
            #![trigger slot_block(d2, sb, i, s)]
            i != id && inode_live(d1, sb, i) && s.valid() ==> slot_block(d2, sb, i, s) == slot_block(d1, sb, i, s),
{
    let ib = ino_block(sb, id);
    let off = ino_off(id);
    lemma_ino_in_table(sb, id, d1.len() as int);
    assert forall|i: int| 0 <= i < d2.len() implies #[trigger] d2[i].len() == BLOCK_SIZE by {}
    assert forall|i: int| #[trigger] inode_live(d2, sb, i) == inode_live(d1, sb, i) by {
        if 0 <= i < sb.ninodes {
            lemma_ino_bit_in_bitmap(sb, i, d1.len() as int);
        }
    }
    assert forall|i: int, w: int|
        #![trigger ino_word(d2, sb, i, w)]
        0 <= i < sb.ninodes && i != id && 0 <= w < 32 implies ino_word(d2, sb, i, w) == ino_word(d1, sb, i, w) by {
        lemma_ino_in_table(sb, i, d1.len() as int);
        if ino_block(sb, i) == ib {
            vstd::arithmetic::div_mod::lemma_fundamental_div_mod(id, 4);
            vstd::arithmetic::div_mod::lemma_fundamental_div_mod(i, 4);
            assert(ino_off(i) != off);
            let at = ino_off(i) + 4 * w;
            assert(d2[ib][at] == d1[ib][at]);
            assert(d2[ib][at + 1] == d1[ib][at + 1]);
            assert(d2[ib][at + 2] == d1[ib][at + 2]);
            assert(d2[ib][at + 3] == d1[ib][at + 3]);
        }
    }
    assert(ino_word(d2, sb, id, 1) == di.size);
    assert forall|s: Slot| s.valid() implies #[trigger] slot_block(d2, sb, id, s) is None by {
        assert(ino_word(d2, sb, id, 30) == di.indirect);
        assert(ino_word(d2, sb, id, 31) == di.double_indirect);
        if let Slot::Direct(k) = s {
            assert(di.direct@[k as int] == spec_le32(d2[ib], off + 16 + 4 * k));
        }
    }
    assert forall|b: int| #[trigger] data_used(d2, sb, b) == data_used(d1, sb, b) by {
        if sb.data_start <= b < sb.data_start + sb.data_len {
            assert((b - sb.data_start) / 4096 < sb.data_bitmap_len) by (nonlinear_arith)
                requires
                    0 <= b - sb.data_start < sb.data_len,
                    sb.data_len <= sb.data_bitmap_len * 4096,
            ;
        }
    }
    assert forall|i: int, s: Slot|
        #![trigger slot_block(d2, sb, i, s)]
        i != id && inode_live(d1, sb, i) && s.valid() implies slot_block(d2, sb, i, s) == slot_block(d1, sb, i, s) by {
        assert(ino_word(d2, sb, i, 30) == ino_word(d1, sb, i, 30));
        assert(ino_word(d2, sb, i, 31) == ino_word(d1, sb, i, 31));
        match s {
            Slot::Direct(k) => {
                assert(ino_word(d2, sb, i, 4 + k) == ino_word(d1, sb, i, 4 + k));
            },
            Slot::Single(j) => {
                if let Some(pb) = slot_block(d1, sb, i, Slot::Indirect) {
                    assert(owned_at(d1, sb, o, i, Slot::Indirect, pb));
                }
            },
            Slot::Mid(l1) => {
                if let Some(pb) = slot_block(d1, sb, i, Slot::Double) {
                    assert(owned_at(d1, sb, o, i, Slot::Double, pb));
                }
            },
            Slot::Leaf(l1, l2) => {
                assert(Slot::Mid(l1).valid());
                if let Some(pb) = slot_block(d1, sb, i, Slot::Double) {
                    assert(owned_at(d1, sb, o, i, Slot::Double, pb));
                    if let Some(m) = slot_block(d1, sb, i, Slot::Mid(l1)) {
                        assert(owned_at(d1, sb, o, i, Slot::Mid(l1), m));
                    }
                }
            },
            _ => {},
        }
    }
}

/// Rewriting inode `id`'s record with an empty one leaves `id` an empty file with no
/// blocks, changes nothing else, and restores every whole-image property that held
/// of the other inodes.
#[verifier::spinoff_prover]
pub proof fn lemma_fresh_record(
    d1: Seq<Seq<u8>>,
    d2: Seq<Seq<u8>>,
    sb: SuperBlock,
    o: Map<int, (int, Slot)>,
    id: int,
    di: DiskInode,
)
    requires
        blocks_sized(d1),
        sb_layout(sb, d1.len() as int),
        0 <= id < sb.ninodes,
        owned_but(d1, sb, o, id),
        tails_zero_but(d1, sb, id, 0, MAX_FILE_SIZE as int),
        sizes_bounded_but(d1, sb, id),
        record_written(d1, d2, sb, id, di),
        record_empty(di),
    ensures
        d2.len() == d1.len(),
        blocks_sized(d2),
        d2[0] == d1[0],
        forall|i: int| #[trigger] inode_live(d2, sb, i) == inode_live(d1, sb, i),
        forall|i: int, w: int|
            #![trigger ino_word(d2, sb, i, w)]
            0 <= i < sb.ninodes && i != id && 0 <= w < 32 ==> ino_word(d2, sb, i, w) == ino_word(d1, sb, i, w),
        ino_word(d2, sb, id, 0) == di.type_,
        ino_word(d2, sb, id, 1) == 0,
        ino_word(d2, sb, id, 2) == di.nlink,
        forall|b: int| #[trigger] data_used(d2, sb, b) == data_used(d1, sb, b),
        forall|i: int, p: int|
            #![trigger file_byte(d2, sb, i, p)]
            i != id && inode_live(d1, sb, i) && 0 <= p < MAX_FILE_SIZE ==> file_byte(d2, sb, i, p) == file_byte(
                d1,
                sb,
                i,
                p,
            ),
        forall|p: int| 0 <= p < MAX_FILE_SIZE ==> #[trigger] file_byte(d2, sb, id, p) == 0,
        forall|s: Slot| s.valid() ==> #[trigger] slot_block(d2, sb, id, s) is None,
        owned(d2, sb, o),
        tails_zero_but(d2, sb, 0, 0, 0),
        sizes_bounded(d2, sb),
{
    lemma_fresh_record_shape(d1, d2, sb, o, id, di);
    assert forall|i: int, p: int|
        #![trigger file_byte(d2, sb, i, p)]
        i != id && inode_live(d1, sb, i) && 0 <= p < MAX_FILE_SIZE implies file_byte(d2, sb, i, p) == file_byte(
            d1,
            sb,
            i,
            p,
        ) by {
        let kk = p / BLOCK_SIZE as int;
        lemma_leaf_slot(kk);
        let ls = leaf_slot(kk);
        assert(slot_block(d2, sb, i, ls) == slot_block(d1, sb, i, ls));
        if let Some(lb) = slot_block(d1, sb, i, ls) {
            assert(owned_at(d1, sb, o, i, ls, lb));
        }
    }
    assert forall|p: int| 0 <= p < MAX_FILE_SIZE implies #[trigger] file_byte(d2, sb, id, p) == 0 by {
        let kk = p / BLOCK_SIZE as int;
        assert(0 <= kk < MAX_FILE_BLOCKS) by (nonlinear_arith)
            requires
                0 <= p < MAX_FILE_SIZE,
                kk == p / 512,
                MAX_FILE_SIZE == MAX_FILE_BLOCKS * 512,
        ;
        lemma_leaf_slot(kk);
    }
    reveal(owned);
    assert forall|i: int, s: Slot, b: int|
        #![trigger slot_block(d2, sb, i, s), owned_at(d2, sb, o, i, s, b)]
        inode_live(d2, sb, i) && s.valid() && slot_block(d2, sb, i, s) == Some(b) implies owned_at(
            d2,
            sb,
            o,
            i,
            s,
            b,
        ) by {
        assert(i != id);
        assert(slot_block(d1, sb, i, s) == Some(b));
        assert(owned_at(d1, sb, o, i, s, b));
    }
    reveal(tails_zero_but);
    assert forall|i: int, p: int|
        #![trigger file_byte(d2, sb, i, p)]
        inode_live(d2, sb, i) && file_size(d2, sb, i) <= p < MAX_FILE_SIZE && !(i == 0 && 0 <= p < 0)
            implies file_byte(d2, sb, i, p) == 0 by {
        if i != id {
            assert(ino_word(d2, sb, i, 1) == ino_word(d1, sb, i, 1));
            assert(file_byte(d1, sb, i, p) == 0);
        }
    }
    reveal(sizes_bounded);
    assert forall|i: int| #[trigger] inode_live(d2, sb, i) implies file_size(d2, sb, i) <= MAX_FILE_SIZE by {
        if i != id {
            assert(ino_word(d2, sb, i, 1) == ino_word(d1, sb, i, 1));
        }
    }
}

/// Two disks on which file `i` has the same size, within bounds, and the same bytes
/// show the same contents for it.
pub proof fn lemma_file_bytes_eq(da: Seq<Seq<u8>>, db: Seq<Seq<u8>>, sb: SuperBlock, i: int)
    requires
        file_size(db, sb, i) == file_size(da, sb, i),
        file_size(da, sb, i) <= MAX_FILE_SIZE,
        forall|p: int| 0 <= p < MAX_FILE_SIZE ==> #[trigger] file_byte(db, sb, i, p) == file_byte(da, sb, i, p),
    ensures
        file_bytes(db, sb, i) == file_bytes(da, sb, i),
{
    assert(file_bytes(db, sb, i) =~= file_bytes(da, sb, i));
}

/// Allocating inode `id`, free on `d0`: setting its bit, then writing an empty
/// record, leaves a consistent image where `id` is an empty live file and every
/// other inode is as it was.
#[verifier::spinoff_prover]
pub proof fn lemma_alloc_finish(d0: Seq<Seq<u8>>, d2: Seq<Seq<u8>>, sb: SuperBlock, o: Map<int, (int, Slot)>, id: int, di: DiskInode)
    requires
        blocks_sized(d0),
        sb_layout(sb, d0.len() as int),
        owned(d0, sb, o),
        tails_zero_but(d0, sb, 0, 0, 0),
        sizes_bounded(d0, sb),
        0 <= id < sb.ninodes,
        !inode_live(d0, sb, id),
        record_written(with_bit(d0, sb.inode_bitmap_start as int, id, true), d2, sb, id, di),
        record_empty(di),
    ensures
        d2.len() == d0.len(),
        blocks_sized(d2),
        d2[0] == d0[0],
        owned(d2, sb, o),
        tails_zero_but(d2, sb, 0, 0, 0),
        sizes_bounded(d2, sb),
        forall|i: int| #[trigger] inode_live(d2, sb, i) == (inode_live(d0, sb, i) || i == id),
        file_bytes(d2, sb, id) == Seq::<u8>::empty(),
        ino_word(d2, sb, id, 0) == di.type_,
        ino_word(d2, sb, id, 2) == di.nlink,
        forall|s: Slot| s.valid() ==> #[trigger] slot_block(d2, sb, id, s) is None,
        forall|b: int| #[trigger] data_used(d2, sb, b) == data_used(d0, sb, b),
        forall|i: int| inode_live(d0, sb, i) ==> #[trigger] file_bytes(d2, sb, i) == file_bytes(d0, sb, i),
        forall|i: int|
            inode_live(d0, sb, i) ==> #[trigger] ino_word(d2, sb, i, 0) == ino_word(d0, sb, i, 0) && ino_word(
                d2,
                sb,
                i,
                2,
            ) == ino_word(d0, sb, i, 2),
{
    let d1 = with_bit(d0, sb.inode_bitmap_start as int, id, true);
    lemma_but_from_all(d0, sb, o, id);
    lemma_inode_bit(d0, sb, o, id, true);
    lemma_fresh_record(d1, d2, sb, o, id, di);
    assert(file_bytes(d2, sb, id) =~= Seq::<u8>::empty());
    assert forall|i: int| inode_live(d0, sb, i) implies #[trigger] file_bytes(d2, sb, i) == file_bytes(d0, sb, i) by {
        assert(i != id);
        assert(ino_word(d2, sb, i, 1) == ino_word(d1, sb, i, 1));
        assert(ino_word(d1, sb, i, 1) == ino_word(d0, sb, i, 1));
        lemma_size_bounded(d0, sb, i);
        assert forall|p: int| 0 <= p < MAX_FILE_SIZE implies #[trigger] file_byte(d2, sb, i, p) == file_byte(d0, sb, i, p) by {
            assert(file_byte(d2, sb, i, p) == file_byte(d1, sb, i, p));
        }
        lemma_file_bytes_eq(d0, d2, sb, i);
    }
    assert forall|i: int|
        inode_live(d0, sb, i) implies #[trigger] ino_word(d2, sb, i, 0) == ino_word(d0, sb, i, 0) && ino_word(
            d2,
            sb,
            i,
            2,
        ) == ino_word(d0, sb, i, 2) by {
        assert(ino_word(d2, sb, i, 0) == ino_word(d1, sb, i, 0));
        assert(ino_word(d2, sb, i, 2) == ino_word(d1, sb, i, 2));
    }
}

/// Freeing inode `id`: once its blocks are gone (`d0` to `d1`), writing an empty
/// record and clearing its bit leaves a consistent image where `id` is free and
/// every other inode is as it was.
#[verifier::spinoff_prover]
pub proof fn lemma_free_finish(
    d0: Seq<Seq<u8>>,
    d1: Seq<Seq<u8>>,
    d2: Seq<Seq<u8>>,
    sb: SuperBlock,
    o: Map<int, (int, Slot)>,
    id: int,
    di: DiskInode,
)
    requires
        blocks_sized(d1),
        sb_layout(sb, d1.len() as int),
        owned(d1, sb, o),
        sizes_bounded(d1, sb),
        tails_zero_but(d0, sb, 0, 0, 0),
        inode_live(d0, sb, id),
        forall|i: int| #[trigger] inode_live(d1, sb, i) == inode_live(d0, sb, i),
        forall|i: int, w: int|
            #![trigger ino_word(d1, sb, i, w)]
            inode_live(d0, sb, i) && 0 <= w < 4 ==> ino_word(d1, sb, i, w) == ino_word(d0, sb, i, w),
        forall|i: int, p: int|
            #![trigger file_byte(d1, sb, i, p)]
            inode_live(d0, sb, i) && 0 <= p < MAX_FILE_SIZE ==> file_byte(d1, sb, i, p) == if i == id {
                0
            } else {
                file_byte(d0, sb, i, p)
            },
        record_written(d1, d2, sb, id, di),
        record_empty(di),
        di.type_ == 0,
    ensures
        inode_live(d2, sb, id),
        d2.len() == d1.len(),
        blocks_sized(d2),
        ({
            let d3 = with_bit(d2, sb.inode_bitmap_start as int, id, false);
            &&& d3.len() == d1.len()
            &&& blocks_sized(d3)
            &&& d3[0] == d1[0]
            &&& owned(d3, sb, o)
            &&& tails_zero_but(d3, sb, 0, 0, 0)
            &&& sizes_bounded(d3, sb)
            &&& forall|i: int| #[trigger] inode_live(d3, sb, i) == (inode_live(d0, sb, i) && i != id)
            &&& ino_word(d3, sb, id, 0) == 0
            &&& forall|b: int| #[trigger] data_used(d3, sb, b) == data_used(d1, sb, b)
            &&& forall|i: int|
                inode_live(d0, sb, i) && i != id ==> #[trigger] file_bytes(d3, sb, i) == file_bytes(d0, sb, i)
            &&& forall|i: int|
                inode_live(d0, sb, i) && i != id ==> #[trigger] ino_word(d3, sb, i, 0) == ino_word(d0, sb, i, 0)
                    && ino_word(d3, sb, i, 2) == ino_word(d0, sb, i, 2)
        }),
{
    let d3 = with_bit(d2, sb.inode_bitmap_start as int, id, false);
    reveal(tails_zero_but);
    assert forall|i: int, p: int|
        #![trigger file_byte(d1, sb, i, p)]
        inode_live(d1, sb, i) && file_size(d1, sb, i) <= p < MAX_FILE_SIZE && !(i == id && 0 <= p
            < MAX_FILE_SIZE) implies file_byte(d1, sb, i, p) == 0 by {
        assert(ino_word(d1, sb, i, 1) == ino_word(d0, sb, i, 1));
        assert(file_byte(d0, sb, i, p) == 0);
    }
    reveal(owned);
    reveal(sizes_bounded);
    assert(owned_but(d1, sb, o, id));
    assert(sizes_bounded_but(d1, sb, id));
    lemma_fresh_record(d1, d2, sb, o, id, di);
    lemma_but_from_all(d2, sb, o, id);
    lemma_inode_bit(d2, sb, o, id, false);
    lemma_all_from_but(d3, sb, o, id);
    lemma_ino_bit_in_bitmap(sb, id, d1.len() as int);
    lemma_with_bit(d2, sb.inode_bitmap_start as int, id, false, id, sb.inode_bitmap_len as int);
    lemma_frame_word(d2, sb, sb.inode_bitmap_start + id / 4096, d3[sb.inode_bitmap_start + id / 4096], id, 0);
    assert(d3 =~= d2.update(sb.inode_bitmap_start + id / 4096, d3[sb.inode_bitmap_start + id / 4096]));
    assert forall|i: int| inode_live(d0, sb, i) && i != id implies #[trigger] file_bytes(d3, sb, i) == file_bytes(d0, sb, i) by {
        assert(ino_word(d3, sb, i, 1) == ino_word(d2, sb, i, 1));
        assert(ino_word(d2, sb, i, 1) == ino_word(d1, sb, i, 1));
        assert(ino_word(d1, sb, i, 1) == ino_word(d0, sb, i, 1));
        assert(inode_live(d1, sb, i));
        lemma_size_bounded(d1, sb, i);
        assert forall|p: int| 0 <= p < MAX_FILE_SIZE implies #[trigger] file_byte(d3, sb, i, p) == file_byte(d0, sb, i, p) by {
            assert(file_byte(d3, sb, i, p) == file_byte(d2, sb, i, p));
            assert(file_byte(d2, sb, i, p) == file_byte(d1, sb, i, p));
        }
        lemma_file_bytes_eq(d0, d3, sb, i);
    }
    assert forall|i: int|
        inode_live(d0, sb, i) && i != id implies #[trigger] ino_word(d3, sb, i, 0) == ino_word(d0, sb, i, 0)
            && ino_word(d3, sb, i, 2) == ino_word(d0, sb, i, 2) by {
        assert(ino_word(d3, sb, i, 0) == ino_word(d2, sb, i, 0));
        assert(ino_word(d3, sb, i, 2) == ino_word(d2, sb, i, 2));
        assert(ino_word(d2, sb, i, 0) == ino_word(d1, sb, i, 0));
        assert(ino_word(d2, sb, i, 2) == ino_word(d1, sb, i, 2));
    }
}

/// `n / d` rounded up.
pub open spec fn ceil_div(n: int, d: int) -> int {
    n / d + if n % d == 0 { 0int } else { 1int }
}

/// The superblock that formatting a disk of `total_blocks` blocks for `ninodes`
/// inodes lays out: the superblock, the inode bitmap, the data bitmap (one block for
/// every `BITS_PER_BLOCK` data blocks), the inode table, then the data blocks.
pub open spec fn format_sb(total_blocks: int, ninodes: int) -> SuperBlock {
    let ibl = ceil_div(ninodes, BITS_PER_BLOCK as int);
    let itl = ceil_div(ninodes, INODES_PER_BLOCK as int);
    let remaining = total_blocks - (1 + ibl + itl);
    let dbl = ceil_div(remaining, BITS_PER_BLOCK + 1);
    SuperBlock {
        magic: FS_MAGIC,
        block_size: BLOCK_SIZE as u32,
        total_blocks: total_blocks as u32,
        ninodes: ninodes as u32,
        inode_bitmap_start: 1,
        inode_bitmap_len: ibl as u32,
        data_bitmap_start: (1 + ibl) as u32,
        data_bitmap_len: dbl as u32,
        inode_table_start: (1 + ibl + dbl) as u32,
        inode_table_len: itl as u32,
        data_start: (1 + ibl + dbl + itl) as u32,
        data_len: (remaining - dbl) as u32,
        root_inode: ROOT_INODE,
    }
}

/// A disk of `total_blocks` blocks can be formatted for `ninodes` inodes: there is
/// at least the root inode, the counts fit the superblock's fields, and after the
/// superblock, the inode bitmap and the inode table there is room for a data bitmap
/// and at least one data block; and both bitmaps' bit counts fit a `usize`.
pub open spec fn format_fits(total_blocks: int, ninodes: int) -> bool {
    let ibl = ceil_div(ninodes, BITS_PER_BLOCK as int);
    let itl = ceil_div(ninodes, INODES_PER_BLOCK as int);
    let dbl = ceil_div(total_blocks - (1 + ibl + itl), BITS_PER_BLOCK + 1);
    &&& 1 <= ninodes <= u32::MAX
    &&& total_blocks <= u32::MAX
    &&& total_blocks >= 1 + ibl + itl + 2
    &&& ibl * BITS_PER_BLOCK <= usize::MAX
    &&& dbl * BITS_PER_BLOCK <= usize::MAX
}

/// `disk` holds a consistent filesystem, described by its block 0.
pub open spec fn valid_image(disk: Seq<Seq<u8>>) -> bool {
    exists|o: Map<int, (int, Slot)>| #[trigger] image_ok(disk, SuperBlock::spec_decode(disk[0]), o)
}

/// A zero byte has no bit set.
pub proof fn lemma_zero_byte_bit(b: int)
    requires
        0 <= b < 8,
    ensures
        !byte_bit(0u8, b),
{
    let bb = b as u8;
    assert((0u8 >> bb) & 1u8 == 0u8) by (bit_vector);
}

/// The layout that formatting computes is a valid one on a disk of at least
/// `total_blocks` blocks.
pub proof fn lemma_format_layout(total_blocks: int, ninodes: int, n: int)
    requires
        format_fits(total_blocks, ninodes),
        total_blocks <= n <= usize::MAX,
    ensures
        sb_layout(format_sb(total_blocks, ninodes), n),
        format_sb(total_blocks, ninodes).data_len > 0,
        format_sb(total_blocks, ninodes).data_start + format_sb(total_blocks, ninodes).data_len == total_blocks,
{
    let ibl = ceil_div(ninodes, 4096);
    let itl = ceil_div(ninodes, 4);
    let remaining = total_blocks - (1 + ibl + itl);
    let dbl = ceil_div(remaining, 4097);
    vstd::arithmetic::div_mod::lemma_fundamental_div_mod(ninodes, 4096);
    vstd::arithmetic::div_mod::lemma_fundamental_div_mod(ninodes, 4);
    vstd::arithmetic::div_mod::lemma_fundamental_div_mod(remaining, 4097);
    assert(0 <= ibl <= ninodes);
    assert(0 <= itl <= ninodes);
    assert(ninodes <= ibl * 4096);
    assert(ninodes <= itl * 4);
    assert(remaining >= 2);
    assert(1 <= dbl <= remaining);
    assert(remaining <= dbl * 4097);
    assert(remaining - dbl <= dbl * 4096);
    assert(remaining - dbl > 0) by (nonlinear_arith)
        requires
            remaining >= 2,
            dbl == remaining / 4097 + if remaining % 4097 == 0 { 0int } else { 1int },
            remaining == 4097 * (remaining / 4097) + remaining % 4097,
            0 <= remaining % 4097 < 4097,
    ;
}

/// A disk whose inode bitmap is all zeros, laid out by `sb`, holds a consistent
/// filesystem with no inode in use.
pub proof fn lemma_empty_image(d: Seq<Seq<u8>>, sb: SuperBlock, o: Map<int, (int, Slot)>)
    requires
        blocks_sized(d),
        sb_layout(sb, d.len() as int),
        SuperBlock::spec_decode(d[0]) == sb,
        forall|q: int, j: int|
            sb.inode_bitmap_start <= q < sb.inode_bitmap_start + sb.inode_bitmap_len && 0 <= j < BLOCK_SIZE ==> #[trigger] d[q][j]
                == 0,
    ensures
        forall|i: int| !#[trigger] inode_live(d, sb, i),
        image_ok(d, sb, o),
{
    assert forall|i: int| !#[trigger] inode_live(d, sb, i) by {
        if 0 <= i < sb.ninodes {
            lemma_ino_bit_in_bitmap(sb, i, d.len() as int);
            let q = sb.inode_bitmap_start + i / 4096;
            let j = (i % 4096) / 8;
            assert(d[q][j] == 0);
            lemma_zero_byte_bit(i % 8);
        }
    }
    reveal(owned);
    reveal(tails_zero_but);
    reveal(sizes_bounded);
}

/// How many of the first `k` data blocks are in use.
pub open spec fn count_used(d: Seq<Seq<u8>>, sb: SuperBlock, k: int) -> nat
    decreases k,
{
    if k <= 0 {
        0
    } else {
        count_used(d, sb, k - 1) + if spec_bit(d, sb.data_bitmap_start as int, k - 1) {
            1nat
        } else {
            0nat
        }
    }
}

/// `c` cut back or extended with zeros to length `n`.
pub open spec fn spec_resize(c: Seq<u8>, n: int) -> Seq<u8> {
    Seq::new(n as nat, |p: int| if p < c.len() { c[p] } else { 0u8 })
}

/// Cutting a file back to `short` bytes and growing it again to `long` brings none of
/// the cut bytes back: the file keeps its first `short` bytes and reads as zeros after.
pub proof fn lemma_shrink_then_grow(c: Seq<u8>, short: int, long: int)
    requires
        0 <= short <= long,
    ensures
        spec_resize(spec_resize(c, short), long).len() == long,
        forall|p: int|
            0 <= p < short && p < c.len() ==> #[trigger] spec_resize(spec_resize(c, short), long)[p] == c[p],
        forall|p: int| short <= p < long ==> #[trigger] spec_resize(spec_resize(c, short), long)[p] == 0,
        spec_resize(spec_resize(c, short), long) == spec_resize(c.take(if short < c.len() { short } else { c.len() as int }), long),
{
    let m = if short < c.len() { short } else { c.len() as int };
    assert(spec_resize(spec_resize(c, short), long) =~= spec_resize(c.take(m), long));
}

/// Resizing a file to the length it has leaves it as it is.
pub proof fn lemma_resize_to_own_length(c: Seq<u8>)
    ensures
        spec_resize(c, c.len() as int) == c,
{
    assert(spec_resize(c, c.len() as int) =~= c);
}

/// Finishing a resize of file `id` to `n`: after the bytes from `n` on were zeroed
/// where the file shrinks (`d0` to `d4`) and the size word was set (`d4` to `d5`),
/// the file reads as its old contents cut or zero-extended to `n`, tails read as
/// zeros, sizes stay bounded and nothing else a file shows changed.
#[verifier::spinoff_prover]
pub proof fn lemma_resize_finish(
    d0: Seq<Seq<u8>>,
    d4: Seq<Seq<u8>>,
    d5: Seq<Seq<u8>>,
    sb: SuperBlock,
    id: int,
    n: int,
)
    requires
        tails_zero_but(d0, sb, 0, 0, 0),
        sizes_bounded(d0, sb),
        inode_live(d0, sb, id),
        0 <= n <= MAX_FILE_SIZE,
        forall|i: int| #[trigger] inode_live(d4, sb, i) == inode_live(d0, sb, i),
        forall|i: int, w: int|
            #![trigger ino_word(d4, sb, i, w)]
            inode_live(d0, sb, i) && 0 <= w < 4 ==> ino_word(d4, sb, i, w) == ino_word(d0, sb, i, w),
        forall|i: int, p: int|
            #![trigger file_byte(d4, sb, i, p)]
            inode_live(d0, sb, i) && 0 <= p < MAX_FILE_SIZE ==> file_byte(d4, sb, i, p) == if i == id && p >= n
                && n < file_size(d0, sb, id) {
                0
            } else {
                file_byte(d0, sb, i, p)
            },
        forall|i: int| #[trigger] inode_live(d5, sb, i) == inode_live(d4, sb, i),
        same_words_but(d4, d5, sb, id, 1),
        file_size(d5, sb, id) == n,
        forall|i: int, p: int|
            #![trigger file_byte(d5, sb, i, p)]
            inode_live(d4, sb, i) && 0 <= p < MAX_FILE_SIZE ==> file_byte(d5, sb, i, p) == file_byte(d4, sb, i, p),
    ensures
        tails_zero_but(d5, sb, 0, 0, 0),
        sizes_bounded(d5, sb),
        file_bytes(d5, sb, id) == spec_resize(file_bytes(d0, sb, id), n),
        forall|i: int| inode_live(d0, sb, i) && i != id ==> #[trigger] file_bytes(d5, sb, i) == file_bytes(d0, sb, i),
        forall|i: int|
            inode_live(d0, sb, i) ==> #[trigger] ino_word(d5, sb, i, 0) == ino_word(d0, sb, i, 0)
                && ino_word(d5, sb, i, 2) == ino_word(d0, sb, i, 2),
{
    reveal(tails_zero_but);
    lemma_size_bounded(d0, sb, id);
    assert forall|i: int| #![trigger file_size(d5, sb, i)] inode_live(d0, sb, i) && i != id implies file_size(d5, sb, i)
        == file_size(d0, sb, i) by {
        assert(ino_word(d4, sb, i, 1) == ino_word(d0, sb, i, 1));
        assert(ino_word(d5, sb, i, 1) == ino_word(d4, sb, i, 1));
    }
    lemma_sizes_resized(d0, d5, sb, id);
    assert forall|i: int, p: int|
        #![trigger file_byte(d5, sb, i, p)]
        inode_live(d5, sb, i) && file_size(d5, sb, i) <= p < MAX_FILE_SIZE && !(i == 0 && 0 <= p < 0)
            implies file_byte(d5, sb, i, p) == 0 by {
        assert(inode_live(d0, sb, i));
        if i != id {
            assert(file_size(d5, sb, i) == file_size(d0, sb, i));
        }
        assert(file_byte(d4, sb, i, p) == 0 || file_byte(d0, sb, i, p) == 0);
    }
    assert(file_bytes(d5, sb, id) =~= spec_resize(file_bytes(d0, sb, id), n));
    assert forall|i: int| inode_live(d0, sb, i) && i != id implies #[trigger] file_bytes(d5, sb, i) == file_bytes(d0, sb, i) by {
        assert(file_size(d5, sb, i) == file_size(d0, sb, i));
        assert forall|p: int| 0 <= p < file_size(d0, sb, i) implies #[trigger] file_byte(d5, sb, i, p) == file_byte(d0, sb, i, p) by {
            lemma_size_bounded(d0, sb, i);
        }
        assert(file_bytes(d5, sb, i) =~= file_bytes(d0, sb, i));
    }
    assert forall|i: int|
        inode_live(d0, sb, i) implies #[trigger] ino_word(d5, sb, i, 0) == ino_word(d0, sb, i, 0) && ino_word(
            d5,
            sb,
            i,
            2,
        ) == ino_word(d0, sb, i, 2) by {
        assert(ino_word(d4, sb, i, 0) == ino_word(d0, sb, i, 0));
        assert(ino_word(d4, sb, i, 2) == ino_word(d0, sb, i, 2));
    }
}

/// A slot below another starts no earlier.
pub proof fn lemma_under_first(t: Slot, s: Slot)
    requires
        under(t, s),
    ensures
        t.first_block() >= s.first_block(),
{
}

/// Every slot of inode `id` that held nothing on `d0` holds nothing on `d`.
pub open spec fn none_stays(d0: Seq<Seq<u8>>, d: Seq<Seq<u8>>, sb: SuperBlock, id: int) -> bool {
    forall|t: Slot|
        #![trigger slot_block(d, sb, id, t)]
        t.valid() && slot_block(d0, sb, id, t) is None ==> slot_block(d, sb, id, t) is None
}

/// `d` is `d0` with inode `id`'s tree cut back from file block `keep` on and the
/// cut-off blocks freed: nothing else a file shows changed, nothing came into use,
/// and below `keep` file `id` is as it was.
pub open spec fn trimmed(d0: Seq<Seq<u8>>, d: Seq<Seq<u8>>, sb: SuperBlock, id: int, keep: int) -> bool {
    &&& forall|i: int| #[trigger] inode_live(d, sb, i) == inode_live(d0, sb, i)
    &&& forall|i: int, w: int|
        #![trigger ino_word(d, sb, i, w)]
        inode_live(d0, sb, i) && 0 <= w < 32 && (i != id || w < 4) ==> ino_word(d, sb, i, w) == ino_word(
            d0,
            sb,
            i,
            w,
        )
    &&& forall|i: int, t: Slot|
        #![trigger slot_block(d, sb, i, t)]
        inode_live(d0, sb, i) && t.valid() && (i != id || t.first_block() < keep) ==> slot_block(
            d,
            sb,
            i,
            t,
        ) == slot_block(d0, sb, i, t)
    &&& none_stays(d0, d, sb, id)
    &&& forall|i: int, p: int|
        #![trigger file_byte(d, sb, i, p)]
        inode_live(d0, sb, i) && 0 <= p < MAX_FILE_SIZE ==> (file_byte(d, sb, i, p) == file_byte(
            d0,
            sb,
            i,
            p,
        ) || (i == id && p >= keep * BLOCK_SIZE && file_byte(d, sb, i, p) == 0))
    &&& forall|b: int| #[trigger] data_used(d, sb, b) ==> data_used(d0, sb, b)
}

/// A disk trims to itself.
pub proof fn lemma_trimmed_refl(d: Seq<Seq<u8>>, sb: SuperBlock, id: int, keep: int)
    ensures
        trimmed(d, d, sb, id, keep),
{
}

/// Trimming twice trims.
pub proof fn lemma_trimmed_trans(d0: Seq<Seq<u8>>, d1: Seq<Seq<u8>>, d2: Seq<Seq<u8>>, sb: SuperBlock, id: int, keep: int)
    requires
        trimmed(d0, d1, sb, id, keep),
        trimmed(d1, d2, sb, id, keep),
    ensures
        trimmed(d0, d2, sb, id, keep),
{
    assert forall|i: int, w: int|
        #![trigger ino_word(d2, sb, i, w)]
        inode_live(d0, sb, i) && 0 <= w < 32 && (i != id || w < 4) implies ino_word(d2, sb, i, w)
            == ino_word(d0, sb, i, w) by {
        assert(inode_live(d1, sb, i));
        assert(ino_word(d1, sb, i, w) == ino_word(d0, sb, i, w));
    }
    assert forall|i: int, t: Slot|
        #![trigger slot_block(d2, sb, i, t)]
        inode_live(d0, sb, i) && t.valid() && (i != id || t.first_block() < keep) implies slot_block(
            d2,
            sb,
            i,
            t,
        ) == slot_block(d0, sb, i, t) by {
        assert(inode_live(d1, sb, i));
        assert(slot_block(d1, sb, i, t) == slot_block(d0, sb, i, t));
    }
    assert forall|t: Slot|
        #![trigger slot_block(d2, sb, id, t)]
        t.valid() && slot_block(d0, sb, id, t) is None implies slot_block(d2, sb, id, t) is None by {
        assert(slot_block(d1, sb, id, t) is None);
    }
    assert forall|i: int, p: int|
        #![trigger file_byte(d2, sb, i, p)]
        inode_live(d0, sb, i) && 0 <= p < MAX_FILE_SIZE implies (file_byte(d2, sb, i, p) == file_byte(
            d0,
            sb,
            i,
            p,
        ) || (i == id && p >= keep * BLOCK_SIZE && file_byte(d2, sb, i, p) == 0)) by {
        assert(inode_live(d1, sb, i));
        assert(file_byte(d1, sb, i, p) == file_byte(d0, sb, i, p) || (i == id && p >= keep
            * BLOCK_SIZE && file_byte(d1, sb, i, p) == 0));
        assert(file_byte(d2, sb, i, p) == file_byte(d1, sb, i, p) || (i == id && p >= keep
            * BLOCK_SIZE && file_byte(d2, sb, i, p) == 0));
    }
    assert forall|b: int| #[trigger] data_used(d2, sb, b) implies data_used(d0, sb, b) by {
        assert(data_used(d1, sb, b));
    }
}

/// Cutting off a slot that starts at or past `keep` trims.
pub proof fn lemma_trimmed_cut(d0: Seq<Seq<u8>>, d: Seq<Seq<u8>>, sb: SuperBlock, o: Map<int, (int, Slot)>, id: int, s: Slot, keep: int, w0: int)
    requires
        owned(d0, sb, o),
        inode_live(d0, sb, id),
        cut(d0, d, sb, id, s),
        s.first_block() >= keep,
        w0 < 0 || w0 >= 4,
        same_words_but(d0, d, sb, id, w0),
        forall|lb: int|
            #![trigger d[lb]]
            (exists|i: int, ls: Slot|
                inode_live(d0, sb, i) && ls.valid() && !ls.is_pointer() && #[trigger] slot_block(d0, sb, i, ls) == Some(lb))
                ==> d[lb] == d0[lb],
    ensures
        trimmed(d0, d, sb, id, keep),
{
    lemma_bytes_cut(d0, d, sb, o, id, s);
    assert forall|i: int, t: Slot|
        #![trigger slot_block(d, sb, i, t)]
        inode_live(d0, sb, i) && t.valid() && (i != id || t.first_block() < keep) implies slot_block(
            d,
            sb,
            i,
            t,
        ) == slot_block(d0, sb, i, t) by {
        if i == id && under(t, s) {
            lemma_under_first(t, s);
        }
    }
    assert forall|i: int, p: int|
        #![trigger file_byte(d, sb, i, p)]
        inode_live(d0, sb, i) && 0 <= p < MAX_FILE_SIZE implies (file_byte(d, sb, i, p) == file_byte(
            d0,
            sb,
            i,
            p,
        ) || (i == id && p >= keep * BLOCK_SIZE && file_byte(d, sb, i, p) == 0)) by {
        let kk = p / BLOCK_SIZE as int;
        lemma_leaf_slot(kk);
        if i == id && under(leaf_slot(kk), s) {
            lemma_under_first(leaf_slot(kk), s);
            assert(kk >= keep);
            assert(p >= keep * BLOCK_SIZE) by (nonlinear_arith)
                requires
                    kk == p / 512,
                    kk >= keep,
                    0 <= p,
            ;
        }
    }
    assert forall|t: Slot|
        #![trigger slot_block(d, sb, id, t)]
        t.valid() && slot_block(d0, sb, id, t) is None implies slot_block(d, sb, id, t) is None by {
        assert(slot_block(d, sb, id, t) == if under(t, s) {
            None
        } else {
            slot_block(d0, sb, id, t)
        });
    }
}

/// A loose pointer block outside what was freed stays loose, with its entries.
pub proof fn lemma_loose_ptr1_kept(
    d1: Seq<Seq<u8>>,
    d2: Seq<Seq<u8>>,
    sb: SuperBlock,
    o: Map<int, (int, Slot)>,
    id: int,
    m: int,
    t: Slot,
    gone: Slot,
)
    requires
        sb_layout(sb, d1.len() as int),
        loose_ptr1(d1, sb, o, id, m, t),
        !under(t, gone),
        forall|e: usize| !#[trigger] under(child(t, e), gone),
        forall|i2: int, c: int, t2: Slot|
            #[trigger] loose(d1, sb, o, i2, c, t2) && !(i2 == id && under(t2, gone)) ==> loose(d2, sb, o, i2, c, t2),
        d2.len() == d1.len(),
        forall|x: int| sb.data_start <= x < d1.len() ==> #[trigger] d2[x] == d1[x],
    ensures
        loose_ptr1(d2, sb, o, id, m, t),
{
    assert(d2[m] == d1[m]);
    assert forall|e: int|
        0 <= e < POINTERS_PER_BLOCK && #[trigger] ptr(d2, m, e) != 0 implies loose(
            d2,
            sb,
            o,
            id,
            ptr(d2, m, e) as int,
            child(t, e as usize),
        ) by {
        assert(ptr(d2, m, e) == ptr(d1, m, e));
        assert(!under(child(t, e as usize), gone));
    }
}

/// Freeing loose blocks trims.
pub proof fn lemma_trimmed_free(d1: Seq<Seq<u8>>, d2: Seq<Seq<u8>>, sb: SuperBlock, id: int, keep: int)
    requires
        files_kept(d1, d2, sb),
        same_words_but(d1, d2, sb, -1, -1),
        same_slots_but(d1, d2, sb, -1, Slot::Indirect),
        forall|b: int| #[trigger] data_used(d2, sb, b) ==> data_used(d1, sb, b),
        inode_live(d1, sb, id),
    ensures
        trimmed(d1, d2, sb, id, keep),
{
}

/// Data blocks that files reach are unchanged when only block `changed`, which no
/// file reaches for data, and blocks outside the data region changed.
pub proof fn lemma_leafblocks_same(d0: Seq<Seq<u8>>, d: Seq<Seq<u8>>, sb: SuperBlock, o: Map<int, (int, Slot)>, changed: int)
    requires
        owned(d0, sb, o),
        sb_layout(sb, d0.len() as int),
        forall|x: int| 0 <= x < d0.len() && x >= sb.data_start && x != changed ==> #[trigger] d[x] == d0[x],
        forall|i: int, ls: Slot|
            inode_live(d0, sb, i) && ls.valid() && !ls.is_pointer() ==> #[trigger] slot_block(d0, sb, i, ls)
                != Some(changed),
    ensures
        forall|lb: int|
            #![trigger d[lb]]
            (exists|i: int, ls: Slot|
                inode_live(d0, sb, i) && ls.valid() && !ls.is_pointer() && #[trigger] slot_block(d0, sb, i, ls) == Some(lb))
                ==> d[lb] == d0[lb],
{
    assert forall|lb: int|
        #![trigger d[lb]]
        (exists|i: int, ls: Slot|
            inode_live(d0, sb, i) && ls.valid() && !ls.is_pointer() && #[trigger] slot_block(d0, sb, i, ls) == Some(lb))
            implies d[lb] == d0[lb] by {
        let (i, ls) = choose|i: int, ls: Slot|
            inode_live(d0, sb, i) && ls.valid() && !ls.is_pointer() && #[trigger] slot_block(d0, sb, i, ls) == Some(lb);
        lemma_owned_at(d0, sb, o, i, ls, lb);
    }
}

/// First file block of the slot holding slot `t`, or -1 for a slot the record holds.
pub open spec fn parent_first(t: Slot) -> int {
    match t {
        Slot::Single(_) => DIRECT_COUNT as int,
        Slot::Mid(_) => (DIRECT_COUNT + POINTERS_PER_BLOCK) as int,
        Slot::Leaf(l1, _) => Slot::Mid(l1).first_block(),
        _ => -1,
    }
}

/// Every slot of inode `id` that starts at or past `keep` but whose holder starts
/// before it holds nothing.
pub open spec fn tops_clear(d: Seq<Seq<u8>>, sb: SuperBlock, id: int, keep: int) -> bool {
    forall|t: Slot|
        t.valid() && t.first_block() >= keep && parent_first(t) < keep ==> #[trigger] slot_block(d, sb, id, t) is None
}

/// When every slot of inode `id` whose holder is the inode itself holds nothing, the
/// inode reaches no block at all.
pub proof fn lemma_tops_clear_empty(d: Seq<Seq<u8>>, sb: SuperBlock, id: int)
    requires
        tops_clear(d, sb, id, 0),
    ensures
        forall|s: Slot| s.valid() ==> #[trigger] slot_block(d, sb, id, s) is None,
{
    assert(slot_block(d, sb, id, Slot::Indirect) is None);
    assert(slot_block(d, sb, id, Slot::Double) is None);
    assert forall|s: Slot| s.valid() implies #[trigger] slot_block(d, sb, id, s) is None by {
        if s is Direct {
            assert(s.first_block() >= 0 && parent_first(s) < 0);
        }
    }
}

/// When every slot that starts at or past `keep` but whose holder starts before it
/// holds nothing, no file block from `keep` on has a block.
pub proof fn lemma_cleared(d: Seq<Seq<u8>>, sb: SuperBlock, id: int, keep: int)
    requires
        0 <= keep,
        forall|t: Slot|
            t.valid() && t.first_block() >= keep && parent_first(t) < keep ==> #[trigger] slot_block(d, sb, id, t) is None,
    ensures
        forall|k: int| keep <= k < MAX_FILE_BLOCKS ==> #[trigger] file_block(d, sb, id, k) is None,
{
    assert forall|k: int| keep <= k < MAX_FILE_BLOCKS implies #[trigger] file_block(d, sb, id, k) is None by {
        lemma_leaf_slot(k);
        let t = leaf_slot(k);
        match t {
            Slot::Single(i) => {
                if parent_first(t) >= keep {
                    assert(slot_block(d, sb, id, Slot::Indirect) is None);
                }
            },
            Slot::Leaf(l1, l2) => {
                if parent_first(t) >= keep {
                    assert(Slot::Mid(l1).valid());
                    if parent_first(Slot::Mid(l1)) >= keep {
                        assert(slot_block(d, sb, id, Slot::Double) is None);
                    } else {
                        assert(slot_block(d, sb, id, Slot::Mid(l1)) is None);
                    }
                }
            },
            _ => {},
        }
    }
}

/// After a trim that leaves file `id` with no block from `keep` on, and with its
/// bytes from `len` up to `keep` blocks zero, the file reads as its first `len` bytes
/// followed by zeros.
pub proof fn lemma_trim_bytes(d0: Seq<Seq<u8>>, d: Seq<Seq<u8>>, sb: SuperBlock, id: int, keep: int, len: int)
    requires
        trimmed(d0, d, sb, id, keep),
        inode_live(d0, sb, id),
        0 <= len <= keep * BLOCK_SIZE,
        forall|k: int| keep <= k < MAX_FILE_BLOCKS ==> #[trigger] file_block(d, sb, id, k) is None,
        forall|p: int| len <= p < keep * BLOCK_SIZE && p < MAX_FILE_SIZE ==> #[trigger] file_byte(d0, sb, id, p) == 0,
    ensures
        forall|p: int|
            0 <= p < MAX_FILE_SIZE ==> #[trigger] file_byte(d, sb, id, p) == if p < len {
                file_byte(d0, sb, id, p)
            } else {
                0
            },
{
    assert forall|p: int| 0 <= p < MAX_FILE_SIZE implies #[trigger] file_byte(d, sb, id, p) == if p < len {
        file_byte(d0, sb, id, p)
    } else {
        0
    } by {
        let k = p / BLOCK_SIZE as int;
        if p >= keep * BLOCK_SIZE {
            assert(k >= keep) by (nonlinear_arith)
                requires
                    p >= keep * 512,
                    k == p / 512,
                    0 <= p,
            ;
            assert(file_block(d, sb, id, k) is None);
        }
    }
}

/// What cutting a file back to `len` does, in terms of the disk before: zeroing
/// the kept block's tail (`d0` to `d1`), then trimming (`d1` to `d4`).
pub proof fn lemma_free_from_effect(
    d0: Seq<Seq<u8>>,
    d1: Seq<Seq<u8>>,
    d4: Seq<Seq<u8>>,
    sb: SuperBlock,
    id: int,
    keep: int,
    len: int,
)
    requires
        inode_live(d0, sb, id),
        forall|i: int| #[trigger] inode_live(d1, sb, i) == inode_live(d0, sb, i),
        same_words_but(d0, d1, sb, -1, -1),
        forall|i: int, p: int|
            #![trigger file_byte(d1, sb, i, p)]
            inode_live(d0, sb, i) && 0 <= p < MAX_FILE_SIZE && !(i == id && len <= p) ==> file_byte(d1, sb, i, p)
                == file_byte(d0, sb, i, p),
        forall|b: int| #[trigger] data_used(d1, sb, b) == data_used(d0, sb, b),
        trimmed(d1, d4, sb, id, keep),
        forall|p: int|
            0 <= p < MAX_FILE_SIZE ==> #[trigger] file_byte(d4, sb, id, p) == if p < len {
                file_byte(d1, sb, id, p)
            } else {
                0
            },
    ensures
        forall|i: int| #[trigger] inode_live(d4, sb, i) == inode_live(d0, sb, i),
        forall|i: int, w: int|
            #![trigger ino_word(d4, sb, i, w)]
            inode_live(d0, sb, i) && 0 <= w < 4 ==> ino_word(d4, sb, i, w) == ino_word(d0, sb, i, w),
        forall|i: int, p: int|
            #![trigger file_byte(d4, sb, i, p)]
            inode_live(d0, sb, i) && 0 <= p < MAX_FILE_SIZE ==> file_byte(d4, sb, i, p) == if i == id && p
                >= len {
                0
            } else {
                file_byte(d0, sb, i, p)
            },
        forall|b: int| #[trigger] data_used(d4, sb, b) ==> data_used(d0, sb, b),
{
    assert forall|i: int, w: int|
        #![trigger ino_word(d4, sb, i, w)]
        inode_live(d0, sb, i) && 0 <= w < 4 implies ino_word(d4, sb, i, w) == ino_word(d0, sb, i, w) by {
        assert(inode_live(d1, sb, i));
        assert(ino_word(d1, sb, i, w) == ino_word(d0, sb, i, w));
    }
    assert forall|i: int, p: int|
        #![trigger file_byte(d4, sb, i, p)]
        inode_live(d0, sb, i) && 0 <= p < MAX_FILE_SIZE implies file_byte(d4, sb, i, p) == if i == id && p >= len {
            0
        } else {
            file_byte(d0, sb, i, p)
        } by {
        assert(inode_live(d1, sb, i));
        if i != id {
            assert(file_byte(d4, sb, i, p) == file_byte(d1, sb, i, p) || (i == id && file_byte(d4, sb, i, p) == 0));
        }
    }
    assert forall|b: int| #[trigger] data_used(d4, sb, b) implies data_used(d0, sb, b) by {
        assert(data_used(d1, sb, b));
    }
}

/// Trimming from a direct slot leaves no top slot holding anything once the
/// direct slots from `keep`, the single-indirect and the double-indirect slots
/// are empty.
#[verifier::spinoff_prover]
pub proof fn lemma_tops_direct(d2: Seq<Seq<u8>>, d3: Seq<Seq<u8>>, d4: Seq<Seq<u8>>, sb: SuperBlock, id: int, keep: int)
    requires
        0 <= keep <= DIRECT_COUNT,
        forall|k: usize| keep <= k < DIRECT_COUNT ==> #[trigger] slot_block(d2, sb, id, Slot::Direct(k)) is None,
        none_stays(d2, d3, sb, id),
        none_stays(d3, d4, sb, id),
        slot_block(d3, sb, id, Slot::Indirect) is None,
        slot_block(d4, sb, id, Slot::Double) is None,
    ensures
        tops_clear(d4, sb, id, keep),
{
    assert forall|t: Slot|
        t.valid() && t.first_block() >= keep && parent_first(t) < keep implies #[trigger] slot_block(d4, sb, id, t) is None by {
        if let Slot::Direct(k) = t {
            assert(keep <= k < DIRECT_COUNT);
            assert(slot_block(d2, sb, id, Slot::Direct(k)) is None);
            assert(slot_block(d3, sb, id, t) is None);
        }
    }
}

/// Trimming from entry `i` of the single-indirect block leaves no top slot holding
/// anything once those entries (or the whole block) and the double-indirect slot
/// are empty.
#[verifier::spinoff_prover]
pub proof fn lemma_tops_single(
    d2: Seq<Seq<u8>>,
    d3: Seq<Seq<u8>>,
    d4: Seq<Seq<u8>>,
    sb: SuperBlock,
    id: int,
    keep: int,
    i: usize,
)
    requires
        keep == DIRECT_COUNT + i,
        i < POINTERS_PER_BLOCK,
        none_stays(d2, d3, sb, id),
        none_stays(d3, d4, sb, id),
        i == 0 ==> slot_block(d3, sb, id, Slot::Indirect) is None,
        i != 0 ==> (slot_block(d2, sb, id, Slot::Indirect) is None || forall|e: usize|
            i <= e < POINTERS_PER_BLOCK ==> #[trigger] slot_block(d3, sb, id, child(Slot::Indirect, e)) is None),
        slot_block(d4, sb, id, Slot::Double) is None,
    ensures
        tops_clear(d4, sb, id, keep),
{
    assert forall|t: Slot|
        t.valid() && t.first_block() >= keep && parent_first(t) < keep implies #[trigger] slot_block(d4, sb, id, t) is None by {
        if let Slot::Single(e) = t {
            if slot_block(d2, sb, id, Slot::Indirect) is None {
                assert(slot_block(d2, sb, id, t) is None);
            } else {
                assert(slot_block(d3, sb, id, child(Slot::Indirect, e)) is None);
            }
            assert(slot_block(d3, sb, id, t) is None);
        } else if t == Slot::Indirect {
            assert(slot_block(d3, sb, id, t) is None);
        }
    }
}

/// With no double-indirect block, no top slot from a double-indirect position on
/// holds anything.
pub proof fn lemma_tops_no_double(d: Seq<Seq<u8>>, sb: SuperBlock, id: int, keep: int)
    requires
        keep >= DIRECT_COUNT + POINTERS_PER_BLOCK,
        slot_block(d, sb, id, Slot::Double) is None,
    ensures
        tops_clear(d, sb, id, keep),
{
    assert forall|t: Slot|
        t.valid() && t.first_block() >= keep && parent_first(t) < keep implies #[trigger] slot_block(d, sb, id, t) is None by {
        if let Slot::Leaf(a, b) = t {
            assert(Slot::Mid(a).valid());
        }
    }
}

/// Trimming from entry `l2` of middle block `l1` under the double-indirect block
/// `dbl` leaves no top slot holding anything once the entries from `l2` (or the
/// whole middle block) and the middle slots from `from` are empty.
#[verifier::spinoff_prover]
pub proof fn lemma_tops_double(
    d2: Seq<Seq<u8>>,
    d3: Seq<Seq<u8>>,
    d4: Seq<Seq<u8>>,
    sb: SuperBlock,
    id: int,
    keep: int,
    l1: usize,
    l2: usize,
    dbl: int,
    from: usize,
)
    requires
        keep == DIRECT_COUNT + POINTERS_PER_BLOCK + POINTERS_PER_BLOCK * l1 + l2,
        l2 < POINTERS_PER_BLOCK,
        l1 <= POINTERS_PER_BLOCK,
        l1 == POINTERS_PER_BLOCK ==> l2 == 0,
        !(l1 == 0 && l2 == 0),
        from == if l2 == 0 { l1 as int } else { l1 + 1 },
        slot_block(d2, sb, id, Slot::Double) == Some(dbl),
        none_stays(d2, d3, sb, id),
        none_stays(d3, d4, sb, id),
        l2 != 0 ==> (ptr(d2, dbl, l1 as int) == 0 || forall|e: usize|
            l2 <= e < POINTERS_PER_BLOCK ==> #[trigger] slot_block(d3, sb, id, child(Slot::Mid(l1), e)) is None),
        forall|e: usize| from <= e < POINTERS_PER_BLOCK ==> #[trigger] slot_block(d4, sb, id, Slot::Mid(e)) is None,
    ensures
        tops_clear(d4, sb, id, keep),
{
    assert forall|t: Slot|
        t.valid() && t.first_block() >= keep && parent_first(t) < keep implies #[trigger] slot_block(d4, sb, id, t) is None by {
        if let Slot::Mid(e) = t {
            assert(e >= from) by (nonlinear_arith)
                requires
                    154 + 128 * e >= 154 + 128 * l1 + l2,
                    l2 < 128,
                    from == if l2 == 0 { l1 as int } else { l1 + 1 },
            ;
        } else if let Slot::Leaf(a, b) = t {
            assert(a == l1 && b >= l2 && l2 != 0) by (nonlinear_arith)
                requires
                    154 + 128 * a + b >= 154 + 128 * l1 + l2,
                    154 + 128 * a < 154 + 128 * l1 + l2,
                    l2 < 128,
                    b < 128,
            ;
            assert(Slot::Mid(l1).valid());
            if ptr(d2, dbl, l1 as int) == 0 {
                assert(slot_block(d2, sb, id, t) is None);
            } else {
                assert(slot_block(d3, sb, id, child(Slot::Mid(l1), b)) is None);
            }
            assert(slot_block(d3, sb, id, t) is None);
        }
    }
}

/// Positions from `pos` up to the end of its block share its block.
pub proof fn lemma_same_block(pos: int, p: int)
    requires
        0 <= pos <= p,
        p < pos - pos % 512 + 512,
    ensures
        p / 512 == pos / 512,
        p % 512 == pos % 512 + (p - pos),
{
    vstd::arithmetic::div_mod::lemma_fundamental_div_mod(pos, 512);
    vstd::arithmetic::div_mod::lemma_fundamental_div_mod_converse(p, 512, pos / 512, pos % 512 + (p - pos));
}

/// A mounted rfs filesystem over one block device.
pub struct Fs<D> {
    cache: BlockCacheManager<D>,
    sb: SuperBlock,
    inode_bitmap: Bitmap,
    data_bitmap: Bitmap,
    owner: Ghost<Map<int, (int, Slot)>>,
}

/// The four little-endian bytes of `v`.
fn le32_vec(v: u32) -> (r: Vec<u8>)
    ensures
        r@ == spec_le32_bytes(v),
{
    let mut out: Vec<u8> = vec![0u8; 4];
    put_le32(&mut out, 0, v);
    assert(out@ =~= spec_le32_bytes(v));
    out
}

impl<D: BlockDevice> Fs<D> {
    /// The disk as the filesystem sees it.
    pub closed spec fn view(&self) -> Seq<Seq<u8>> {
        self.cache.view()
    }

    /// The superblock in force.
    pub closed spec fn spec_sb(&self) -> SuperBlock {
        self.sb
    }

    /// The cache the filesystem works through.
    pub closed spec fn spec_cache(&self) -> BlockCacheManager<D> {
        self.cache
    }

    /// Everything the filesystem keeps true except that file tails read as zeros.
    pub closed spec fn wf(&self) -> bool {
        let disk = self.cache.view();
        &&& self.cache.inv()
        &&& blocks_sized(disk)
        &&& sb_layout(self.sb, disk.len() as int)
        &&& SuperBlock::spec_decode(disk[0]) == self.sb
        &&& owned(disk, self.sb, self.owner@)
        &&& sizes_bounded(disk, self.sb)
        &&& self.inode_bitmap.spec_start() == self.sb.inode_bitmap_start
        &&& self.inode_bitmap.spec_blocks() == self.sb.inode_bitmap_len
        &&& self.data_bitmap.spec_start() == self.sb.data_bitmap_start
        &&& self.data_bitmap.spec_blocks() == self.sb.data_bitmap_len
    }

    /// The filesystem is consistent, but for file `id0`'s tail in the window from
    /// `lo` up to `hi`.
    pub closed spec fn inv_but(&self, id0: int, lo: int, hi: int) -> bool {
        &&& self.wf()
        &&& tails_zero_but(self.cache.view(), self.sb, id0, lo, hi)
    }

    /// The filesystem is consistent.
    pub open spec fn inv(&self) -> bool {
        self.inv_but(0, 0, 0)
    }

    /// `self` and `other` hold the same filesystem: the same disk as seen through the
    /// cache, the same superblock, the same record of where blocks are reached from.
    pub closed spec fn same_fs(&self, other: Self) -> bool {
        &&& self.cache.view() == other.cache.view()
        &&& self.sb == other.sb
        &&& self.owner@ == other.owner@
        &&& self.inode_bitmap == other.inode_bitmap
        &&& self.data_bitmap == other.data_bitmap
    }

    /// Inode `id` is in use.
    pub open spec fn live(&self, id: int) -> bool {
        inode_live(self.view(), self.spec_sb(), id)
    }

    /// Inode `id`'s contents.
    pub open spec fn contents(&self, id: int) -> Seq<u8> {
        file_bytes(self.view(), self.spec_sb(), id)
    }

    /// Inode `id`'s raw kind.
    pub open spec fn raw_kind(&self, id: int) -> u32 {
        ino_word(self.view(), self.spec_sb(), id, 0)
    }

    /// Inode `id`'s link count.
    pub open spec fn links(&self, id: int) -> u32 {
        ino_word(self.view(), self.spec_sb(), id, 2)
    }

    /// A live file of a consistent filesystem is at most [`MAX_FILE_SIZE`] long.
    pub proof fn lemma_contents_bounded(&self, id: int)
        requires
            self.inv(),
            self.live(id),
        ensures
            self.contents(id).len() <= MAX_FILE_SIZE,
    {
        lemma_size_bounded(self.view(), self.spec_sb(), id);
    }

    /// Every data block is in use.
    pub open spec fn is_data_full(&self) -> bool {
        data_full(self.view(), self.spec_sb())
    }

    /// Block `k` of inode `id`'s data is allocated.
    pub open spec fn has_block(&self, id: int, k: int) -> bool {
        file_block(self.view(), self.spec_sb(), id, k) is Some
    }

    /// Inode `id` reaches no block.
    pub open spec fn holds_no_blocks(&self, id: int) -> bool {
        forall|s: Slot| s.valid() ==> #[trigger] slot_block(self.view(), self.spec_sb(), id, s) is None
    }

    /// `self` shows the same files as `other`: the same inodes in use, each with the
    /// same contents, kind and link count.
    pub open spec fn same_files_as(&self, other: &Self) -> bool {
        &&& forall|i: int| #[trigger] self.live(i) == other.live(i)
        &&& forall|i: int| #![trigger self.contents(i)] other.live(i) ==> self.contents(i) == other.contents(i)
        &&& forall|i: int|
            #![trigger self.raw_kind(i)]
            #![trigger self.links(i)]
            other.live(i) ==> self.raw_kind(i) == other.raw_kind(i) && self.links(i) == other.links(i)
    }

    /// A filesystem handed back to its device and mounted again shows the same files:
    /// the same inodes in use, each with the same contents, kind and link count.
    pub proof fn lemma_remount_same_files(&self, before: &Self)
        requires
            before.inv(),
            self.view() == before.view(),
            self.spec_sb() == SuperBlock::spec_decode(self.view()[0]),
        ensures
            self.same_files_as(before),
    {
        assert(self.spec_sb() == before.spec_sb());
    }

    /// Block and byte offset of inode `id`'s record.
    fn inode_pos(&self, id: u32) -> (r: (usize, usize))
        requires
            sb_layout(self.sb, self.cache.view().len() as int),
            id < self.sb.ninodes,
        ensures
            r.0 == ino_block(self.spec_sb(), id as int),
            r.1 == ino_off(id as int),
            r.0 < self.view().len(),
            r.1 + INODE_SIZE <= BLOCK_SIZE,
            !(self.spec_sb().inode_bitmap_start <= r.0 < self.spec_sb().inode_bitmap_start
                + self.spec_sb().inode_bitmap_len),
            !(self.spec_sb().data_bitmap_start <= r.0 < self.spec_sb().data_bitmap_start
                + self.spec_sb().data_bitmap_len),
            !(self.spec_sb().data_start <= r.0),
            r.0 != 0,
    {
        proof {
            lemma_ino_in_table(self.sb, id as int, self.view().len() as int);
        }
        let block = self.sb.inode_table_start as usize + id as usize / INODES_PER_BLOCK;
        let offset = (id as usize % INODES_PER_BLOCK) * INODE_SIZE;
        (block, offset)
    }

    /// Word `w` of inode `id`'s record.
    fn read_word(&mut self, id: u32, w: usize) -> (r: u32)
        requires
            old(self).wf(),
            id < old(self).spec_sb().ninodes,
            w < 32,
        ensures
            final(self).wf(),
            final(self).same_fs(*old(self)),
            r == ino_word(old(self).view(), old(self).spec_sb(), id as int, w as int),
    {
        let (block, offset) = self.inode_pos(id);
        let bytes = self.cache.read(block, offset + 4 * w, 4);
        let r = get_le32(bytes.as_slice(), 0);
        proof {
            assert(bytes@ =~= old(self).view()[block as int].subrange(offset + 4 * w, offset + 4 * w + 4));
        }
        r
    }

    /// Entry `i` of pointer block `block`.
    fn read_pointer(&mut self, block: usize, i: usize) -> (r: u32)
        requires
            old(self).wf(),
            block < old(self).view().len(),
            i < POINTERS_PER_BLOCK,
        ensures
            final(self).wf(),
            final(self).same_fs(*old(self)),
            r == ptr(old(self).view(), block as int, i as int),
    {
        let bytes = self.cache.read(block, 4 * i, 4);
        let r = get_le32(bytes.as_slice(), 0);
        proof {
            assert(bytes@ =~= old(self).view()[block as int].subrange(4 * i as int, 4 * i + 4));
        }
        r
    }

    /// Inode `id`'s whole record.
    fn read_record(&mut self, id: u32) -> (r: DiskInode)
        requires
            old(self).wf(),
            id < old(self).spec_sb().ninodes,
        ensures
            final(self).wf(),
            final(self).same_fs(*old(self)),
            r.encoded_at(
                old(self).view()[ino_block(old(self).spec_sb(), id as int)],
                ino_off(id as int),
            ),
    {
        let (block, offset) = self.inode_pos(id);
        let bytes = self.cache.read(block, 0, BLOCK_SIZE);
        assert(bytes@ =~= old(self).view()[block as int]);
        DiskInode::decode(bytes.as_slice(), offset)
    }

    /// The block holding file block `inner` of the inode whose record is `di`.
    #[verifier::rlimit(50)]
    fn block_map(&mut self, id: u32, di: &DiskInode, inner: usize) -> (r: Option<usize>)
        requires
            old(self).wf(),
            old(self).live(id as int),
            di.encoded_at(
                old(self).view()[ino_block(old(self).spec_sb(), id as int)],
                ino_off(id as int),
            ),
            inner < MAX_FILE_BLOCKS,
        ensures
            final(self).wf(),
            final(self).same_fs(*old(self)),
            r == match file_block(old(self).view(), old(self).spec_sb(), id as int, inner as int) {
                Some(b) => Some(b as usize),
                None => None::<usize>,
            },
            r matches Some(b) ==> b < old(self).view().len(),
    {
        let ghost disk = self.view();
        let ghost sb = self.sb;
        let ghost owner = self.owner@;
        proof {
            lemma_leaf_slot(inner as int);
        }
        match locate_block(inner) {
            BlockSlot::Direct(i) => {
                let p = di.direct[i];
                proof {
                    assert(p == ino_word(disk, sb, id as int, 4 + i));
                    assert(slot_block(disk, sb, id as int, Slot::Direct(i)) == nz(p));
                    if p != 0 {
                        lemma_owned_at(disk, sb, owner, id as int, Slot::Direct(i), p as int);
                    }
                }
                if p != 0 {
                    Some(p as usize)
                } else {
                    None
                }
            },
            BlockSlot::SingleIndirect(i) => {
                let ind = di.indirect;
                proof {
                    assert(ind == ino_word(disk, sb, id as int, 30));
                    assert(slot_block(disk, sb, id as int, Slot::Indirect) == nz(ind));
                    if ind != 0 {
                        lemma_owned_at(disk, sb, owner, id as int, Slot::Indirect, ind as int);
                    }
                }
                if ind == 0 {
                    return None;
                }
                let p = self.read_pointer(ind as usize, i);
                proof {
                    assert(slot_block(disk, sb, id as int, Slot::Single(i)) == nz(p));
                    if p != 0 {
                        lemma_owned_at(disk, sb, owner, id as int, Slot::Single(i), p as int);
                    }
                }
                if p != 0 {
                    Some(p as usize)
                } else {
                    None
                }
            },
            BlockSlot::DoubleIndirect { l1, l2 } => {
                let dbl = di.double_indirect;
                proof {
                    assert(dbl == ino_word(disk, sb, id as int, 31));
                    assert(slot_block(disk, sb, id as int, Slot::Double) == nz(dbl));
                    if dbl != 0 {
                        lemma_owned_at(disk, sb, owner, id as int, Slot::Double, dbl as int);
                    }
                }
                if dbl == 0 {
                    return None;
                }
                let mid = self.read_pointer(dbl as usize, l1);
                proof {
                    assert(slot_block(disk, sb, id as int, Slot::Mid(l1)) == nz(mid));
                    if mid != 0 {
                        lemma_owned_at(disk, sb, owner, id as int, Slot::Mid(l1), mid as int);
                    }
                }
                if mid == 0 {
                    return None;
                }
                let p = self.read_pointer(mid as usize, l2);
                proof {
                    assert(slot_block(disk, sb, id as int, Slot::Leaf(l1, l2)) == nz(p));
                    if p != 0 {
                        lemma_owned_at(disk, sb, owner, id as int, Slot::Leaf(l1, l2), p as int);
                    }
                }
                if p != 0 {
                    Some(p as usize)
                } else {
                    None
                }
            },
        }
    }

    /// Reads up to `buf.len()` bytes, returning 0 at or beyond EOF.
    /// Unallocated ranges read as zeros.
    pub fn read_at(&mut self, id: u32, offset: usize, buf: &mut [u8]) -> (r: usize)
        requires
            old(self).inv(),
            old(self).live(id as int),
        ensures
            final(self).inv(),
            final(self).same_fs(*old(self)),
            final(self).view() == old(self).view(),
            final(self).spec_sb() == old(self).spec_sb(),
            r == if offset >= old(self).contents(id as int).len() || old(buf)@.len() == 0 {
                0
            } else if old(buf)@.len() < old(self).contents(id as int).len() - offset {
                old(buf)@.len() as int
            } else {
                old(self).contents(id as int).len() - offset
            },
            final(buf)@.len() == old(buf)@.len(),
            forall|j: int| 0 <= j < r ==> #[trigger] final(buf)@[j] == old(self).contents(id as int)[offset + j],
            forall|j: int| r <= j < old(buf)@.len() ==> #[trigger] final(buf)@[j] == old(buf)@[j],
    {
        let ghost disk = self.view();
        let ghost sb = self.sb;
        let ghost bytes = self.contents(id as int);
        let blen = buf.len();
        let di = self.read_record(id);
        let size = di.size as usize;
        proof {
            assert(size == file_size(disk, sb, id as int));
            lemma_size_bounded(disk, sb, id as int);
        }
        if offset >= size || buf.len() == 0 {
            return 0;
        }
        let end = if buf.len() < size - offset {
            offset + buf.len()
        } else {
            size
        };
        let mut done: usize = 0;
        let mut pos: usize = offset;
        while pos < end
            invariant
                self.inv(),
                self.same_fs(*old(self)),
                disk == self.view(),
                sb == self.spec_sb(),
                bytes == file_bytes(disk, sb, id as int),
                self.live(id as int),
                di.encoded_at(disk[ino_block(sb, id as int)], ino_off(id as int)),
                size == bytes.len(),
                size <= MAX_FILE_SIZE,
                offset < end <= size,
                end - offset <= buf@.len(),
                pos == offset + done,
                pos <= end,
                blen == buf@.len(),
                buf@.len() == old(buf)@.len(),
                forall|j: int| 0 <= j < done ==> #[trigger] buf@[j] == bytes[offset + j],
                forall|j: int| done <= j < buf@.len() ==> #[trigger] buf@[j] == old(buf)@[j],
            decreases end - pos,
        {
            let within = pos % BLOCK_SIZE;
            let n = if BLOCK_SIZE - within < end - pos {
                BLOCK_SIZE - within
            } else {
                end - pos
            };
            let k = pos / BLOCK_SIZE;
            proof {
                assert(k < MAX_FILE_BLOCKS) by {
                    assert(pos < MAX_FILE_SIZE);
                }
            }
            match self.block_map(id, &di, k) {
                Some(block) => {
                    let chunk = self.cache.read(block, within, n);
                    let mut i: usize = 0;
                    while i < n
                        invariant
                            i <= n,
                            chunk@.len() == n,
                            blen == buf@.len(),
                            done + n <= buf@.len(),
                            buf@.len() == old(buf)@.len(),
                            forall|j: int| 0 <= j < done ==> #[trigger] buf@[j] == bytes[offset + j],
                            forall|j: int| 0 <= j < i ==> #[trigger] buf@[done + j] == chunk@[j],
                            forall|j: int| done + n <= j < buf@.len() ==> #[trigger] buf@[j] == old(buf)@[j],
                        decreases n - i,
                    {
                        buf[done + i] = chunk[i];
                        i = i + 1;
                    }
                    proof {
                        assert forall|j: int| done <= j < done + n implies #[trigger] buf@[j]
                            == bytes[offset + j] by {
                            let p = offset + j;
                            lemma_same_block(pos as int, p);
                            assert(buf@[done + (j - done)] == chunk@[j - done]);
                        }
                    }
                },
                None => {
                    let mut i: usize = 0;
                    while i < n
                        invariant
                            i <= n,
                            blen == buf@.len(),
                            done + n <= buf@.len(),
                            buf@.len() == old(buf)@.len(),
                            forall|j: int| 0 <= j < done ==> #[trigger] buf@[j] == bytes[offset + j],
                            forall|j: int| 0 <= j < i ==> #[trigger] buf@[done + j] == 0,
                            forall|j: int| done + n <= j < buf@.len() ==> #[trigger] buf@[j] == old(buf)@[j],
                        decreases n - i,
                    {
                        buf[done + i] = 0;
                        i = i + 1;
                    }
                    proof {
                        assert forall|j: int| done <= j < done + n implies #[trigger] buf@[j]
                            == bytes[offset + j] by {
                            let p = offset + j;
                            lemma_same_block(pos as int, p);
                            assert(buf@[done + (j - done)] == 0);
                        }
                    }
                },
            }
            done = done + n;
            pos = pos + n;
        }
        done
    }

    /// Overwrite word `w` of inode `id`'s record with `v`.
    fn write_word(&mut self, id: u32, w: usize, v: u32)
        requires
            old(self).cache.inv(),
            sb_layout(old(self).sb, old(self).cache.view().len() as int),
            id < old(self).sb.ninodes,
            w < 32,
        ensures
            final(self).cache.inv(),
            final(self).sb == old(self).sb,
            final(self).owner == old(self).owner,
            final(self).inode_bitmap == old(self).inode_bitmap,
            final(self).data_bitmap == old(self).data_bitmap,
            final(self).cache.view() == old(self).cache.view().update(
                ino_block(old(self).sb, id as int),
                splice(
                    old(self).cache.view()[ino_block(old(self).sb, id as int)],
                    ino_off(id as int) + 4 * w,
                    spec_le32_bytes(v),
                ),
            ),
    {
        let (block, offset) = self.inode_pos(id);
        let bytes = le32_vec(v);
        self.cache.modify(block, offset + 4 * w, bytes.as_slice());
    }

    /// Overwrite entry `i` of pointer block `block` with `v`.
    fn write_pointer(&mut self, block: usize, i: usize, v: u32)
        requires
            old(self).cache.inv(),
            block < old(self).cache.view().len(),
            i < POINTERS_PER_BLOCK,
        ensures
            final(self).cache.inv(),
            final(self).sb == old(self).sb,
            final(self).owner == old(self).owner,
            final(self).inode_bitmap == old(self).inode_bitmap,
            final(self).data_bitmap == old(self).data_bitmap,
            final(self).cache.view() == old(self).cache.view().update(
                block as int,
                splice(old(self).cache.view()[block as int], 4 * i, spec_le32_bytes(v)),
            ),
    {
        let bytes = le32_vec(v);
        self.cache.modify(block, 4 * i, bytes.as_slice());
    }

    /// Allocates a zeroed block; zero is the unallocated pointer representation.
    fn alloc_data_block(&mut self) -> (r: Option<usize>)
        requires
            old(self).wf(),
        ensures
            final(self).wf(),
            final(self).sb == old(self).sb,
            files_kept(old(self).view(), final(self).view(), old(self).sb),
            same_words_but(old(self).view(), final(self).view(), old(self).sb, -1, -1),
            same_slots_but(old(self).view(), final(self).view(), old(self).sb, -1, Slot::Indirect),
            match r {
                Some(b) => {
                    &&& data_used(final(self).view(), old(self).sb, b as int)
                    &&& !data_used(old(self).view(), old(self).sb, b as int)
                    &&& not_reached(final(self).view(), old(self).sb, b as int)
                    &&& all_zero(final(self).view()[b as int])
                    &&& 0 < b <= u32::MAX
                    &&& b < final(self).view().len()
                    &&& forall|b2: int|
                        b2 != b ==> #[trigger] data_used(final(self).view(), old(self).sb, b2)
                            == data_used(old(self).view(), old(self).sb, b2)
                    &&& forall|q: int|
                        #[trigger] data_used(old(self).view(), old(self).sb, q) ==> final(self).view()[q]
                            == old(self).view()[q]
                },
                None => {
                    &&& final(self).view() == old(self).view()
                    &&& data_full(old(self).view(), old(self).sb)
                },
            },
    {
        let ghost d0 = self.cache.view();
        let ghost sb = self.sb;
        let ghost o = self.owner@;
        let bit = match self.data_bitmap.allocate(&mut self.cache) {
            Some(bit) => bit,
            None => {
                proof {
                    lemma_full_from_bits(d0, sb, (sb.data_bitmap_len * 4096) as int);
                }
                return None;
            },
        };
        if bit >= self.sb.data_len as usize {
            proof {
                lemma_with_bit(d0, sb.data_bitmap_start as int, bit as int, true, bit as int, sb.data_bitmap_len as int);
            }
            self.data_bitmap.dealloc(&mut self.cache, bit);
            proof {
                lemma_bit_roundtrip(d0, sb.data_bitmap_start as int, bit as int, sb.data_bitmap_len as int);
                lemma_full_from_bits(d0, sb, bit as int);
            }
            return None;
        }
        let block = self.sb.data_start as usize + bit;
        let zeros: Vec<u8> = vec![0u8; BLOCK_SIZE];
        assert(all_zero(zeros@));
        self.cache.modify(block, 0, zeros.as_slice());
        proof {
            lemma_alloc_block(d0, sb, o, bit as int, zeros@);
        }
        Some(block)
    }


    /// The block that record slot `s` (word `w`) of inode `id` holds, allocating a
    /// zeroed one if it holds none.
    fn ensure_inode_pointer(&mut self, id: u32, w: usize, Ghost(s): Ghost<Slot>) -> (r: Option<usize>)
        requires
            old(self).wf(),
            inode_live(old(self).view(), old(self).sb, id as int),
            s.valid(),
            slot_word(s) == w,
            w < 32,
        ensures
            final(self).wf(),
            final(self).sb == old(self).sb,
            tree_grown(old(self).view(), final(self).view(), old(self).sb, id as int),
            match r {
                Some(b) => {
                    &&& slot_block(final(self).view(), old(self).sb, id as int, s) == Some(b as int)
                    &&& b < final(self).view().len()
                },
                None => data_full(final(self).view(), old(self).sb) && slot_block(
                    final(self).view(),
                    old(self).sb,
                    id as int,
                    s,
                ) is None,
            },
    {
        let ghost d0 = self.cache.view();
        let ghost sb = self.sb;
        let existing = self.read_word(id, w);
        if existing != 0 {
            proof {
                lemma_owned_at(d0, sb, self.owner@, id as int, s, existing as int);
            }
            return Some(existing as usize);
        }
        let b = match self.alloc_data_block() {
            Some(b) => b,
            None => {
                return None;
            },
        };
        let ghost d1 = self.cache.view();
        let ghost o1 = self.owner@;
        proof {
            assert(inode_live(d1, sb, id as int));
            assert(ino_word(d1, sb, id as int, w as int) == 0);
            lemma_link_word(d1, sb, o1, id as int, s, b as int);
        }
        self.write_word(id, w, b as u32);
        self.owner = Ghost(o1.insert(b as int, (id as int, s)));
        proof {
            let d2 = self.cache.view();
            lemma_sizes_kept(d1, d2, sb);
            lemma_grown_by_link(d0, d1, d2, sb, id as int, s, w as int);
        }
        Some(b)
    }

    /// The block at entry `i` of pointer block `indirect`, held by slot `ps` of inode
    /// `id`, allocating a zeroed one if the entry is empty.
    #[verifier::spinoff_prover]
    fn ensure_pointer(
        &mut self,
        indirect: usize,
        i: usize,
        Ghost(id): Ghost<int>,
        Ghost(ps): Ghost<Slot>,
    ) -> (r: Option<usize>)
        requires
            old(self).wf(),
            inode_live(old(self).view(), old(self).sb, id),
            ps.valid(),
            ps.is_pointer(),
            i < POINTERS_PER_BLOCK,
            slot_block(old(self).view(), old(self).sb, id, ps) == Some(indirect as int),
        ensures
            final(self).wf(),
            final(self).sb == old(self).sb,
            tree_grown(old(self).view(), final(self).view(), old(self).sb, id),
            match r {
                Some(b) => {
                    &&& slot_block(final(self).view(), old(self).sb, id, child(ps, i)) == Some(b as int)
                    &&& b < final(self).view().len()
                },
                None => data_full(final(self).view(), old(self).sb) && slot_block(
                    final(self).view(),
                    old(self).sb,
                    id,
                    child(ps, i),
                ) is None,
            },
    {
        let ghost d0 = self.cache.view();
        let ghost sb = self.sb;
        proof {
            lemma_owned_at(d0, sb, self.owner@, id, ps, indirect as int);
        }
        let existing = self.read_pointer(indirect, i);
        proof {
            lemma_child_slot(d0, sb, self.owner@, id, ps, indirect as int, i);
        }
        if existing != 0 {
            return Some(existing as usize);
        }
        let b = match self.alloc_data_block() {
            Some(b) => b,
            None => {
                return None;
            },
        };
        let ghost d1 = self.cache.view();
        let ghost o1 = self.owner@;
        proof {
            assert(slot_block(d1, sb, id, ps) == Some(indirect as int));
            assert(d1[indirect as int] == d0[indirect as int]);
            lemma_link_ptr(d1, sb, o1, id, ps, indirect as int, i, b as int);
        }
        self.write_pointer(indirect, i, b as u32);
        self.owner = Ghost(o1.insert(b as int, (id, child(ps, i))));
        proof {
            let d2 = self.cache.view();
            lemma_sizes_kept(d1, d2, sb);
            lemma_grown_by_link(d0, d1, d2, sb, id, child(ps, i), -1);
        }
        Some(b)
    }


    /// The block holding file block `inner` of inode `id`, allocating whatever the
    /// path to it lacks. `None` once the data blocks run out.
    #[verifier::spinoff_prover]
    fn ensure_block(&mut self, id: u32, inner: usize) -> (r: Option<usize>)
        requires
            old(self).wf(),
            inode_live(old(self).view(), old(self).sb, id as int),
            inner < MAX_FILE_BLOCKS,
        ensures
            final(self).wf(),
            final(self).sb == old(self).sb,
            tree_grown(old(self).view(), final(self).view(), old(self).sb, id as int),
            match r {
                Some(b) => {
                    &&& file_block(final(self).view(), old(self).sb, id as int, inner as int) == Some(b as int)
                    &&& b < final(self).view().len()
                },
                None => data_full(final(self).view(), old(self).sb) && file_block(
                    final(self).view(),
                    old(self).sb,
                    id as int,
                    inner as int,
                ) is None,
            },
    {
        let ghost d0 = self.cache.view();
        let ghost sb = self.sb;
        proof {
            lemma_leaf_slot(inner as int);
        }
        match locate_block(inner) {
            BlockSlot::Direct(i) => self.ensure_inode_pointer(id, 4 + i, Ghost(Slot::Direct(i))),
            BlockSlot::SingleIndirect(i) => {
                let ind = match self.ensure_inode_pointer(id, 30, Ghost(Slot::Indirect)) {
                    Some(b) => b,
                    None => return None,
                };
                let ghost d1 = self.cache.view();
                let r = self.ensure_pointer(ind, i, Ghost(id as int), Ghost(Slot::Indirect));
                proof {
                    lemma_grown_trans(d0, d1, self.cache.view(), sb, id as int);
                }
                r
            },
            BlockSlot::DoubleIndirect { l1, l2 } => {
                let dbl = match self.ensure_inode_pointer(id, 31, Ghost(Slot::Double)) {
                    Some(b) => b,
                    None => return None,
                };
                let ghost d1 = self.cache.view();
                let mid = match self.ensure_pointer(dbl, l1, Ghost(id as int), Ghost(Slot::Double)) {
                    Some(b) => b,
                    None => {
                        proof {
                            lemma_grown_trans(d0, d1, self.cache.view(), sb, id as int);
                        }
                        return None;
                    },
                };
                let ghost d2 = self.cache.view();
                proof {
                    lemma_grown_trans(d0, d1, d2, sb, id as int);
                }
                let r = self.ensure_pointer(mid, l2, Ghost(id as int), Ghost(Slot::Mid(l1)));
                proof {
                    lemma_grown_trans(d0, d2, self.cache.view(), sb, id as int);
                }
                r
            },
        }
    }


    /// Copy `chunk` into data block `b`, file block `k` of inode `id`, at byte `within`.
    #[verifier::spinoff_prover]
    fn write_chunk(&mut self, id: u32, k: usize, b: usize, within: usize, chunk: &[u8])
        requires
            old(self).wf(),
            inode_live(old(self).view(), old(self).sb, id as int),
            k < MAX_FILE_BLOCKS,
            file_block(old(self).view(), old(self).sb, id as int, k as int) == Some(b as int),
            within + chunk@.len() <= BLOCK_SIZE,
        ensures
            final(self).wf(),
            final(self).sb == old(self).sb,
            forall|i: int| #[trigger] inode_live(final(self).view(), old(self).sb, i) == inode_live(old(self).view(), old(self).sb, i),
            same_words_but(old(self).view(), final(self).view(), old(self).sb, -1, -1),
            same_slots_but(old(self).view(), final(self).view(), old(self).sb, -1, Slot::Indirect),
            forall|b2: int| #[trigger] data_used(final(self).view(), old(self).sb, b2) == data_used(old(self).view(), old(self).sb, b2),
            forall|i: int, p: int|
                #![trigger file_byte(final(self).view(), old(self).sb, i, p)]
                inode_live(old(self).view(), old(self).sb, i) && 0 <= p < MAX_FILE_SIZE ==> file_byte(
                    final(self).view(),
                    old(self).sb,
                    i,
                    p,
                ) == if (i == id && p / BLOCK_SIZE as int == k && within <= (p % BLOCK_SIZE as int) && (p
                    % BLOCK_SIZE as int) < within + chunk@.len()) {
                    chunk@[p % BLOCK_SIZE as int - within]
                } else {
                    file_byte(old(self).view(), old(self).sb, i, p)
                },
    {
        let ghost d0 = self.cache.view();
        let ghost sb = self.sb;
        let ghost o = self.owner@;
        proof {
            lemma_leaf_slot(k as int);
            lemma_owned_at(d0, sb, o, id as int, leaf_slot(k as int), b as int);
        }
        self.cache.modify(b, within, chunk);
        proof {
            let x = splice(d0[b as int], within as int, chunk@);
            lemma_modify_leaf(d0, sb, o, id as int, k as int, b as int, x);
            let d1 = self.cache.view();
            assert forall|i: int| #![trigger file_size(d1, sb, i)] inode_live(d0, sb, i) implies file_size(d1, sb, i)
                == file_size(d0, sb, i) by {
                assert(ino_word(d1, sb, i, 1) == ino_word(d0, sb, i, 1));
            }
            lemma_sizes_same(d0, d1, sb);
        }
    }

    /// Writes and grows as needed, returning the bytes written: all of `buf`, unless
    /// the data blocks run out first, in which case the write stops there and the
    /// file grows only over what was written.
    #[verifier::spinoff_prover]
    pub fn write_at(&mut self, id: u32, offset: usize, buf: &[u8]) -> (r: usize)
        requires
            old(self).inv(),
            old(self).live(id as int),
            offset + buf@.len() <= MAX_FILE_SIZE,
        ensures
            final(self).inv(),
            final(self).spec_sb() == old(self).spec_sb(),
            r <= buf@.len(),
            r < buf@.len() ==> data_full(final(self).view(), final(self).spec_sb()),
            r < buf@.len() ==> file_block(
                final(self).view(),
                final(self).spec_sb(),
                id as int,
                (offset + r) / BLOCK_SIZE as int,
            ) is None,
            offset % BLOCK_SIZE + buf@.len() <= BLOCK_SIZE ==> r == 0 || r == buf@.len(),
            forall|i: int|
                old(self).live(i) && i != id && old(self).holds_no_blocks(i) ==> #[trigger] final(self).holds_no_blocks(i),
            forall|i: int| #[trigger] final(self).live(i) == old(self).live(i),
            final(self).contents(id as int) == spec_write(
                old(self).contents(id as int),
                offset as int,
                buf@.take(r as int),
            ),
            forall|i: int|
                old(self).live(i) && i != id ==> #[trigger] final(self).contents(i) == old(self).contents(i),
            forall|i: int|
                old(self).live(i) ==> #[trigger] final(self).raw_kind(i) == old(self).raw_kind(i)
                    && final(self).links(i) == old(self).links(i),
    {
        let ghost d0 = self.cache.view();
        let ghost sb = self.sb;
        if buf.len() == 0 {
            proof {
                assert(buf@.take(0) =~= Seq::<u8>::empty());
            }
            return 0;
        }
        let end = offset + buf.len();
        let mut done: usize = 0;
        let mut pos: usize = offset;
        proof {
            reveal(tails_zero_but);
            assert(write_progress(d0, d0, sb, id as int, offset as int, offset as int, buf@));
        }
        while pos < end
            invariant
                self.wf(),
                self.sb == sb,
                offset < end,
                end == offset + buf@.len(),
                end <= MAX_FILE_SIZE,
                inode_live(d0, sb, id as int),
                pos == offset + done,
                pos <= end,
                offset % BLOCK_SIZE + buf@.len() <= BLOCK_SIZE ==> done == 0 || done == buf@.len(),
                write_progress(d0, self.cache.view(), sb, id as int, offset as int, pos as int, buf@),
                others_slots_kept(d0, self.cache.view(), sb, id as int),
            ensures
                self.wf(),
                self.sb == sb,
                pos == offset + done,
                done <= buf@.len(),
                offset % BLOCK_SIZE + buf@.len() <= BLOCK_SIZE ==> done == 0 || done == buf@.len(),
                done < buf@.len() ==> data_full(self.cache.view(), sb),
                done < buf@.len() ==> file_block(self.cache.view(), sb, id as int, (offset + done) / BLOCK_SIZE as int)
                    is None,
                write_progress(d0, self.cache.view(), sb, id as int, offset as int, pos as int, buf@),
                others_slots_kept(d0, self.cache.view(), sb, id as int),
            decreases end - pos,
        {
            let within = pos % BLOCK_SIZE;
            let n = if BLOCK_SIZE - within < end - pos {
                BLOCK_SIZE - within
            } else {
                end - pos
            };
            let k = pos / BLOCK_SIZE;
            let ghost d1 = self.cache.view();
            proof {
                assert(inode_live(d1, sb, id as int));
            }
            let block = match self.ensure_block(id, k) {
                Some(b) => b,
                None => {
                    proof {
                        let d2 = self.cache.view();
                        lemma_tails_kept(d1, d2, sb, id as int, offset as int, pos as int);
                        assert forall|i: int, wd: int|
                            #![trigger ino_word(d2, sb, i, wd)]
                            inode_live(d0, sb, i) && 0 <= wd < 4 implies ino_word(d2, sb, i, wd) == ino_word(d0, sb, i, wd) by {
                            assert(inode_live(d1, sb, i));
                        }
                        assert forall|i: int, p: int|
                            #![trigger file_byte(d2, sb, i, p)]
                            inode_live(d0, sb, i) && 0 <= p < MAX_FILE_SIZE implies file_byte(d2, sb, i, p) == if i == id
                                && offset <= p < pos {
                                buf@[p - offset]
                            } else {
                                file_byte(d0, sb, i, p)
                            } by {
                            assert(inode_live(d1, sb, i));
                        }
                        lemma_others_kept_trans(d0, d1, d2, sb, id as int);
                    }
                    break;
                },
            };
            let ghost d2 = self.cache.view();
            let chunk = vstd::slice::slice_subrange(buf, done, done + n);
            self.write_chunk(id, k, block, within, chunk);
            proof {
                lemma_others_kept_trans(d0, d1, d2, sb, id as int);
                lemma_others_kept_trans(d0, d2, self.cache.view(), sb, id as int);
                lemma_write_step(d0, d1, d2, self.cache.view(), sb, id as int, offset as int, pos as int, n as int, buf@);
            }
            done = done + n;
            pos = pos + n;
        }
        let ghost d4 = self.cache.view();
        if done > 0 {
            let size = self.read_word(id, 1);
            let new_size: u32 = if (pos as u32) > size {
                pos as u32
            } else {
                size
            };
            let ghost o = self.owner@;
            proof {
                lemma_set_size(d4, sb, o, id as int, new_size);
            }
            self.write_word(id, 1, new_size);
            proof {
                lemma_others_kept_trans(d0, d4, self.cache.view(), sb, id as int);
            }
        }
        proof {
            let d5 = self.cache.view();
            lemma_write_finish(d0, d4, d5, sb, id as int, offset as int, pos as int, buf@);
            assert(buf@.take(pos - offset) == buf@.take(done as int));
        }
        done
    }


    /// Return a cut-off data block to the free pool.
    #[verifier::spinoff_prover]
    fn free_data_block(&mut self, block: usize, Ghost(id): Ghost<int>, Ghost(t): Ghost<Slot>)
        requires
            old(self).wf(),
            loose(old(self).view(), old(self).sb, old(self).owner@, id, block as int, t),
        ensures
            final(self).wf(),
            final(self).sb == old(self).sb,
            final(self).owner@ == old(self).owner@,
            files_kept(old(self).view(), final(self).view(), old(self).sb),
            same_words_but(old(self).view(), final(self).view(), old(self).sb, -1, -1),
            same_slots_but(old(self).view(), final(self).view(), old(self).sb, -1, Slot::Indirect),
            !data_used(final(self).view(), old(self).sb, block as int),
            forall|b2: int| b2 != block ==> #[trigger] data_used(final(self).view(), old(self).sb, b2)
                == data_used(old(self).view(), old(self).sb, b2),
            forall|x: int| old(self).sb.data_start <= x < old(self).view().len() ==> #[trigger] final(self).view()[x]
                == old(self).view()[x],
            final(self).view().len() == old(self).view().len(),
            forall|i2: int, c: int, t2: Slot|
                #[trigger] loose(old(self).view(), old(self).sb, old(self).owner@, i2, c, t2) && c != block
                    ==> loose(final(self).view(), old(self).sb, old(self).owner@, i2, c, t2),
    {
        let ghost d0 = self.cache.view();
        let ghost sb = self.sb;
        let ghost o = self.owner@;
        let bit = block - self.sb.data_start as usize;
        proof {
            assert(bit < sb.data_bitmap_len * 4096);
        }
        self.data_bitmap.dealloc(&mut self.cache, bit);
        proof {
            lemma_free_bit(d0, sb, o, block as int);
            let d1 = self.cache.view();
            lemma_sizes_kept(d0, d1, sb);
            assert forall|i2: int, c: int, t2: Slot|
                #[trigger] loose(d0, sb, o, i2, c, t2) && c != block implies loose(d1, sb, o, i2, c, t2) by {
                lemma_loose_kept(d0, d1, sb, o, i2, c, t2, block as int);
            }
        }
    }

    /// Free single-level pointer block `q`, cut off from slot `t`, and every block it
    /// points to.
    #[verifier::spinoff_prover]
    fn free_indirect(&mut self, q: usize, Ghost(id): Ghost<int>, Ghost(t): Ghost<Slot>)
        requires
            old(self).wf(),
            loose_ptr1(old(self).view(), old(self).sb, old(self).owner@, id, q as int, t),
        ensures
            final(self).wf(),
            final(self).sb == old(self).sb,
            final(self).owner@ == old(self).owner@,
            files_kept(old(self).view(), final(self).view(), old(self).sb),
            same_words_but(old(self).view(), final(self).view(), old(self).sb, -1, -1),
            same_slots_but(old(self).view(), final(self).view(), old(self).sb, -1, Slot::Indirect),
            forall|b: int| #[trigger] data_used(final(self).view(), old(self).sb, b) ==> data_used(old(self).view(), old(self).sb, b),
            forall|x: int| old(self).sb.data_start <= x < old(self).view().len() ==> #[trigger] final(self).view()[x]
                == old(self).view()[x],
            final(self).view().len() == old(self).view().len(),
            forall|b: int| #[trigger] data_used(final(self).view(), old(self).sb, b)
                == (data_used(old(self).view(), old(self).sb, b) && !in_tree1(old(self).view(), q as int, b)),
            forall|i2: int, c: int, t2: Slot|
                #[trigger] loose(old(self).view(), old(self).sb, old(self).owner@, i2, c, t2) && !(i2 == id && under(t2, t))
                    ==> loose(final(self).view(), old(self).sb, old(self).owner@, i2, c, t2),
    {
        let ghost d0 = self.cache.view();
        let ghost sb = self.sb;
        let ghost o = self.owner@;
        let ptrs = self.cache.read(q, 0, BLOCK_SIZE);
        proof {
            assert(ptrs@ =~= d0[q as int]);
            assert(d0[q as int].len() == BLOCK_SIZE);
        }
        let mut e: usize = 0;
        while e < POINTERS_PER_BLOCK
            invariant
                self.wf(),
                self.sb == sb,
                self.owner@ == o,
                e <= POINTERS_PER_BLOCK,
                ptrs@ == d0[q as int],
                ptrs@.len() == BLOCK_SIZE,
                sb.data_start <= q < d0.len(),
                self.cache.view().len() == d0.len(),
                loose_ptr1(d0, sb, o, id, q as int, t),
                files_kept(d0, self.cache.view(), sb),
                same_words_but(d0, self.cache.view(), sb, -1, -1),
                same_slots_but(d0, self.cache.view(), sb, -1, Slot::Indirect),
                forall|b: int| #[trigger] data_used(self.cache.view(), sb, b) ==> data_used(d0, sb, b),
                forall|b: int| #[trigger] data_used(self.cache.view(), sb, b)
                    == (data_used(d0, sb, b) && !points_below(d0, q as int, e as int, b)),
                forall|x: int| sb.data_start <= x < d0.len() ==> #[trigger] self.cache.view()[x] == d0[x],
                loose(self.cache.view(), sb, o, id, q as int, t),
                forall|e2: int|
                    e <= e2 < POINTERS_PER_BLOCK && #[trigger] ptr(d0, q as int, e2) != 0 ==> loose(
                        self.cache.view(),
                        sb,
                        o,
                        id,
                        ptr(d0, q as int, e2) as int,
                        child(t, e2 as usize),
                    ),
                forall|i2: int, c: int, t2: Slot|
                    #[trigger] loose(d0, sb, o, i2, c, t2) && !(i2 == id && under(t2, t)) ==> loose(
                        self.cache.view(),
                        sb,
                        o,
                        i2,
                        c,
                        t2,
                    ),
            decreases POINTERS_PER_BLOCK - e,
        {
            let c = get_le32(ptrs.as_slice(), 4 * e);
            assert(c == ptr(d0, q as int, e as int));
            let ghost dprev = self.cache.view();
            if c != 0 {
                let ghost d1 = self.cache.view();
                self.free_data_block(c as usize, Ghost(id), Ghost(child(t, e)));
                proof {
                    let d2 = self.cache.view();
                    lemma_sizes_kept(d1, d2, sb);
                    assert forall|e2: int|
                        e + 1 <= e2 < POINTERS_PER_BLOCK && #[trigger] ptr(d0, q as int, e2) != 0 implies loose(
                            d2,
                            sb,
                            o,
                            id,
                            ptr(d0, q as int, e2) as int,
                            child(t, e2 as usize),
                        ) by {
                        assert(loose(d1, sb, o, id, ptr(d0, q as int, e2) as int, child(t, e2 as usize)));
                        assert(child(t, e2 as usize) != child(t, e));
                    }
                    assert(loose(d1, sb, o, id, q as int, t));
                    assert(child(t, e) != t);
                    assert forall|i2: int, cc: int, t2: Slot|
                        #[trigger] loose(d0, sb, o, i2, cc, t2) && !(i2 == id && under(t2, t)) implies loose(d2, sb, o, i2, cc, t2) by {
                        assert(loose(d1, sb, o, i2, cc, t2));
                        if cc == c {
                            assert(under(child(t, e), t));
                        }
                    }
                    assert forall|i: int, p: int|
                        #![trigger file_byte(d2, sb, i, p)]
                        inode_live(d0, sb, i) && 0 <= p < MAX_FILE_SIZE implies file_byte(d2, sb, i, p)
                            == file_byte(d0, sb, i, p) by {
                        assert(inode_live(d1, sb, i));
                    }
                    assert forall|i: int| #![trigger file_size(d2, sb, i)] inode_live(d0, sb, i) implies file_size(d2, sb, i)
                        == file_size(d0, sb, i) by {
                        assert(inode_live(d1, sb, i));
                    }
                    assert forall|i: int, w: int|
                        #![trigger ino_word(d2, sb, i, w)]
                        inode_live(d0, sb, i) && 0 <= w < 32 && !(i == -1 && w == -1) implies ino_word(d2, sb, i, w)
                            == ino_word(d0, sb, i, w) by {
                        assert(inode_live(d1, sb, i));
                    }
                    assert forall|i: int, t3: Slot|
                        #![trigger slot_block(d2, sb, i, t3)]
                        inode_live(d0, sb, i) && t3.valid() && !(i == -1 && t3 == Slot::Indirect) implies slot_block(d2, sb, i, t3)
                            == slot_block(d0, sb, i, t3) by {
                        assert(inode_live(d1, sb, i));
                    }
                }
            }
            proof {
                assert forall|b: int| #[trigger] data_used(self.cache.view(), sb, b)
                    == (data_used(d0, sb, b) && !points_below(d0, q as int, e + 1, b)) by {
                    lemma_points_below_step(d0, q as int, e as int, b);
                    assert(data_used(dprev, sb, b) == (data_used(d0, sb, b) && !points_below(d0, q as int, e as int, b)));
                }
            }
            e = e + 1;
        }
        let ghost d3 = self.cache.view();
        self.free_data_block(q, Ghost(id), Ghost(t));
        proof {
            let d4 = self.cache.view();
            assert forall|b: int| #[trigger] data_used(d4, sb, b)
                == (data_used(d0, sb, b) && !in_tree1(d0, q as int, b)) by {
                assert(data_used(d3, sb, b) == (data_used(d0, sb, b) && !points_below(d0, q as int, POINTERS_PER_BLOCK as int, b)));
            }
            lemma_sizes_kept(d3, d4, sb);
            assert forall|i2: int, cc: int, t2: Slot|
                #[trigger] loose(d0, sb, o, i2, cc, t2) && !(i2 == id && under(t2, t)) implies loose(d4, sb, o, i2, cc, t2) by {
                assert(loose(d3, sb, o, i2, cc, t2));
            }
            assert forall|i: int, p: int|
                #![trigger file_byte(d4, sb, i, p)]
                inode_live(d0, sb, i) && 0 <= p < MAX_FILE_SIZE implies file_byte(d4, sb, i, p)
                    == file_byte(d0, sb, i, p) by {
                assert(inode_live(d3, sb, i));
            }
            assert forall|i: int| #![trigger file_size(d4, sb, i)] inode_live(d0, sb, i) implies file_size(d4, sb, i)
                == file_size(d0, sb, i) by {
                assert(inode_live(d3, sb, i));
            }
            assert forall|i: int, w: int|
                #![trigger ino_word(d4, sb, i, w)]
                inode_live(d0, sb, i) && 0 <= w < 32 && !(i == -1 && w == -1) implies ino_word(d4, sb, i, w)
                    == ino_word(d0, sb, i, w) by {
                assert(inode_live(d3, sb, i));
            }
            assert forall|i: int, t3: Slot|
                #![trigger slot_block(d4, sb, i, t3)]
                inode_live(d0, sb, i) && t3.valid() && !(i == -1 && t3 == Slot::Indirect) implies slot_block(d4, sb, i, t3)
                    == slot_block(d0, sb, i, t3) by {
                assert(inode_live(d3, sb, i));
            }
        }
    }


    /// Free double-indirect block `q`, cut off from inode `id`, with everything below.
    #[verifier::spinoff_prover]
    fn free_double_indirect(&mut self, q: usize, Ghost(id): Ghost<int>)
        requires
            old(self).wf(),
            loose_ptr2(old(self).view(), old(self).sb, old(self).owner@, id, q as int),
        ensures
            final(self).wf(),
            final(self).sb == old(self).sb,
            final(self).owner@ == old(self).owner@,
            files_kept(old(self).view(), final(self).view(), old(self).sb),
            same_words_but(old(self).view(), final(self).view(), old(self).sb, -1, -1),
            same_slots_but(old(self).view(), final(self).view(), old(self).sb, -1, Slot::Indirect),
            forall|b: int| #[trigger] data_used(final(self).view(), old(self).sb, b) ==> data_used(old(self).view(), old(self).sb, b),
            forall|x: int| old(self).sb.data_start <= x < old(self).view().len() ==> #[trigger] final(self).view()[x]
                == old(self).view()[x],
            final(self).view().len() == old(self).view().len(),
            forall|b: int| #[trigger] data_used(final(self).view(), old(self).sb, b)
                == (data_used(old(self).view(), old(self).sb, b) && !in_tree2(old(self).view(), q as int, b)),
    {
        let ghost d0 = self.cache.view();
        let ghost sb = self.sb;
        let ghost o = self.owner@;
        let ptrs = self.cache.read(q, 0, BLOCK_SIZE);
        proof {
            assert(ptrs@ =~= d0[q as int]);
            assert(d0[q as int].len() == BLOCK_SIZE);
        }
        let mut e: usize = 0;
        while e < POINTERS_PER_BLOCK
            invariant
                self.wf(),
                self.sb == sb,
                self.owner@ == o,
                e <= POINTERS_PER_BLOCK,
                ptrs@ == d0[q as int],
                ptrs@.len() == BLOCK_SIZE,
                sb.data_start <= q < d0.len(),
                self.cache.view().len() == d0.len(),
                loose_ptr2(d0, sb, o, id, q as int),
                files_kept(d0, self.cache.view(), sb),
                same_words_but(d0, self.cache.view(), sb, -1, -1),
                same_slots_but(d0, self.cache.view(), sb, -1, Slot::Indirect),
                forall|b: int| #[trigger] data_used(self.cache.view(), sb, b) ==> data_used(d0, sb, b),
                forall|b: int| #[trigger] data_used(self.cache.view(), sb, b)
                    == (data_used(d0, sb, b) && !below2(d0, q as int, e as int, b)),
                forall|x: int| sb.data_start <= x < d0.len() ==> #[trigger] self.cache.view()[x] == d0[x],
                loose(self.cache.view(), sb, o, id, q as int, Slot::Double),
                forall|e2: int|
                    e <= e2 < POINTERS_PER_BLOCK && #[trigger] ptr(d0, q as int, e2) != 0 ==> loose_ptr1(
                        self.cache.view(),
                        sb,
                        o,
                        id,
                        ptr(d0, q as int, e2) as int,
                        Slot::Mid(e2 as usize),
                    ),
            decreases POINTERS_PER_BLOCK - e,
        {
            let m = get_le32(ptrs.as_slice(), 4 * e);
            assert(m == ptr(d0, q as int, e as int));
            let ghost dprev = self.cache.view();
            if m != 0 {
                let ghost d1 = self.cache.view();
                proof {
                    assert(d1[m as int] == d0[m as int]);
                }
                self.free_indirect(m as usize, Ghost(id), Ghost(Slot::Mid(e)));
                proof {
                    let d2 = self.cache.view();
                    lemma_in_tree1_frame(d1, d0, m as int);
                    lemma_sizes_kept(d1, d2, sb);
                    assert forall|e2: int|
                        e + 1 <= e2 < POINTERS_PER_BLOCK && #[trigger] ptr(d0, q as int, e2) != 0 implies loose_ptr1(
                            d2,
                            sb,
                            o,
                            id,
                            ptr(d0, q as int, e2) as int,
                            Slot::Mid(e2 as usize),
                        ) by {
                        assert forall|ee: usize| !#[trigger] under(child(Slot::Mid(e2 as usize), ee), Slot::Mid(e)) by {}
                        lemma_loose_ptr1_kept(d1, d2, sb, o, id, ptr(d0, q as int, e2) as int, Slot::Mid(e2 as usize), Slot::Mid(e));
                    }
                    assert(loose(d2, sb, o, id, q as int, Slot::Double));
                    assert forall|i: int, p: int|
                        #![trigger file_byte(d2, sb, i, p)]
                        inode_live(d0, sb, i) && 0 <= p < MAX_FILE_SIZE implies file_byte(d2, sb, i, p)
                            == file_byte(d0, sb, i, p) by {
                        assert(inode_live(d1, sb, i));
                    }
                    assert forall|i: int| #![trigger file_size(d2, sb, i)] inode_live(d0, sb, i) implies file_size(d2, sb, i)
                        == file_size(d0, sb, i) by {
                        assert(inode_live(d1, sb, i));
                    }
                    assert forall|i: int, w: int|
                        #![trigger ino_word(d2, sb, i, w)]
                        inode_live(d0, sb, i) && 0 <= w < 32 && !(i == -1 && w == -1) implies ino_word(d2, sb, i, w)
                            == ino_word(d0, sb, i, w) by {
                        assert(inode_live(d1, sb, i));
                    }
                    assert forall|i: int, t3: Slot|
                        #![trigger slot_block(d2, sb, i, t3)]
                        inode_live(d0, sb, i) && t3.valid() && !(i == -1 && t3 == Slot::Indirect) implies slot_block(d2, sb, i, t3)
                            == slot_block(d0, sb, i, t3) by {
                        assert(inode_live(d1, sb, i));
                    }
                }
            }
            proof {
                assert forall|b: int| #[trigger] data_used(self.cache.view(), sb, b)
                    == (data_used(d0, sb, b) && !below2(d0, q as int, e + 1, b)) by {
                    lemma_below2_step(d0, q as int, e as int, b);
                    assert(data_used(dprev, sb, b) == (data_used(d0, sb, b) && !below2(d0, q as int, e as int, b)));
                    if m != 0 {
                        assert(in_tree1(dprev, m as int, b) == in_tree1(d0, m as int, b));
                    }
                }
            }
            e = e + 1;
        }
        let ghost d3 = self.cache.view();
        self.free_data_block(q, Ghost(id), Ghost(Slot::Double));
        proof {
            let d4 = self.cache.view();
            assert forall|b: int| #[trigger] data_used(d4, sb, b)
                == (data_used(d0, sb, b) && !in_tree2(d0, q as int, b)) by {
                assert(data_used(d3, sb, b) == (data_used(d0, sb, b) && !below2(d0, q as int, POINTERS_PER_BLOCK as int, b)));
            }
            lemma_sizes_kept(d3, d4, sb);
            assert forall|i: int, p: int|
                #![trigger file_byte(d4, sb, i, p)]
                inode_live(d0, sb, i) && 0 <= p < MAX_FILE_SIZE implies file_byte(d4, sb, i, p)
                    == file_byte(d0, sb, i, p) by {
                assert(inode_live(d3, sb, i));
            }
            assert forall|i: int| #![trigger file_size(d4, sb, i)] inode_live(d0, sb, i) implies file_size(d4, sb, i)
                == file_size(d0, sb, i) by {
                assert(inode_live(d3, sb, i));
            }
            assert forall|i: int, w: int|
                #![trigger ino_word(d4, sb, i, w)]
                inode_live(d0, sb, i) && 0 <= w < 32 && !(i == -1 && w == -1) implies ino_word(d4, sb, i, w)
                    == ino_word(d0, sb, i, w) by {
                assert(inode_live(d3, sb, i));
            }
            assert forall|i: int, t3: Slot|
                #![trigger slot_block(d4, sb, i, t3)]
                inode_live(d0, sb, i) && t3.valid() && !(i == -1 && t3 == Slot::Indirect) implies slot_block(d4, sb, i, t3)
                    == slot_block(d0, sb, i, t3) by {
                assert(inode_live(d3, sb, i));
            }
        }
    }


    /// Cut off record slot `s` (word `w`) of inode `id`, returning what it held.
    #[verifier::spinoff_prover]
    fn cut_word(&mut self, id: u32, w: usize, Ghost(s): Ghost<Slot>) -> (r: u32)
        requires
            old(self).wf(),
            inode_live(old(self).view(), old(self).sb, id as int),
            s.valid(),
            slot_word(s) == w,
            w < 32,
        ensures
            final(self).wf(),
            final(self).sb == old(self).sb,
            final(self).owner@ == old(self).owner@,
            cut(old(self).view(), final(self).view(), old(self).sb, id as int, s),
            same_words_but(old(self).view(), final(self).view(), old(self).sb, id as int, w as int),
            r == ino_word(old(self).view(), old(self).sb, id as int, w as int),
            final(self).view().len() == old(self).view().len(),
            forall|x: int| old(self).sb.data_start <= x < old(self).view().len() ==> #[trigger] final(self).view()[x]
                == old(self).view()[x],
    {
        let ghost d0 = self.cache.view();
        let ghost sb = self.sb;
        let r = self.read_word(id, w);
        proof {
            lemma_cut_word(d0, sb, self.owner@, id as int, s);
            lemma_ino_in_table(sb, id as int, d0.len() as int);
        }
        self.write_word(id, w, 0);
        proof {
            let d1 = self.cache.view();
            assert forall|i: int| #![trigger file_size(d1, sb, i)] inode_live(d0, sb, i) implies file_size(d1, sb, i)
                == file_size(d0, sb, i) by {
                assert(ino_word(d1, sb, i, 1) == ino_word(d0, sb, i, 1));
            }
            lemma_sizes_same(d0, d1, sb);
        }
        r
    }

    /// Cut off entry `j` of pointer block `pb`, held by slot `ps` of inode `id`,
    /// returning what it held.
    #[verifier::spinoff_prover]
    fn cut_entry(&mut self, pb: usize, j: usize, Ghost(id): Ghost<int>, Ghost(ps): Ghost<Slot>) -> (r: u32)
        requires
            old(self).wf(),
            inode_live(old(self).view(), old(self).sb, id),
            ps.valid(),
            ps.is_pointer(),
            j < POINTERS_PER_BLOCK,
            slot_block(old(self).view(), old(self).sb, id, ps) == Some(pb as int),
        ensures
            final(self).wf(),
            final(self).sb == old(self).sb,
            final(self).owner@ == old(self).owner@,
            cut(old(self).view(), final(self).view(), old(self).sb, id, child(ps, j)),
            child(ps, j).valid(),
            same_words_but(old(self).view(), final(self).view(), old(self).sb, -1, -1),
            r == ptr(old(self).view(), pb as int, j as int),
            final(self).view().len() == old(self).view().len(),
            forall|x: int| 0 <= x < old(self).view().len() && x != pb ==> #[trigger] final(self).view()[x]
                == old(self).view()[x],
    {
        let ghost d0 = self.cache.view();
        let ghost sb = self.sb;
        proof {
            lemma_owned_at(d0, sb, self.owner@, id, ps, pb as int);
        }
        let r = self.read_pointer(pb, j);
        proof {
            lemma_cut_entry(d0, sb, self.owner@, id, ps, pb as int, j);
        }
        self.write_pointer(pb, j, 0);
        proof {
            let d1 = self.cache.view();
            assert forall|i: int| #![trigger file_size(d1, sb, i)] inode_live(d0, sb, i) implies file_size(d1, sb, i)
                == file_size(d0, sb, i) by {
                assert(ino_word(d1, sb, i, 1) == ino_word(d0, sb, i, 1));
            }
            lemma_sizes_same(d0, d1, sb);
        }
        r
    }


    /// Cut off and free inode `id`'s single-indirect tree.
    #[verifier::spinoff_prover]
    fn free_inode_tree_single(&mut self, id: u32, Ghost(keep): Ghost<int>)
        requires
            old(self).wf(),
            inode_live(old(self).view(), old(self).sb, id as int),
            keep <= DIRECT_COUNT,
        ensures
            final(self).wf(),
            final(self).sb == old(self).sb,
            trimmed(old(self).view(), final(self).view(), old(self).sb, id as int, keep),
            slot_block(final(self).view(), old(self).sb, id as int, Slot::Indirect) is None,
    {
        let ghost d0 = self.cache.view();
        let ghost sb = self.sb;
        let ghost o = self.owner@;
        let q = self.cut_word(id, 30, Ghost(Slot::Indirect));
        let ghost d1 = self.cache.view();
        proof {
            lemma_leafblocks_same(d0, d1, sb, o, -1);
            lemma_trimmed_cut(d0, d1, sb, o, id as int, Slot::Indirect, keep, 30);
        }
        if q != 0 {
            proof {
                assert(slot_block(d0, sb, id as int, Slot::Indirect) == Some(q as int));
                lemma_loose_cut(d0, d1, sb, o, id as int, Slot::Indirect, Slot::Indirect, q as int);
                lemma_owned_at(d0, sb, o, id as int, Slot::Indirect, q as int);
                assert forall|e: int|
                    0 <= e < POINTERS_PER_BLOCK && #[trigger] ptr(d1, q as int, e) != 0 implies loose(
                        d1,
                        sb,
                        o,
                        id as int,
                        ptr(d1, q as int, e) as int,
                        child(Slot::Indirect, e as usize),
                    ) by {
                    assert(ptr(d1, q as int, e) == ptr(d0, q as int, e));
                    assert(slot_block(d0, sb, id as int, Slot::Single(e as usize)) == Some(ptr(d0, q as int, e) as int));
                    lemma_loose_cut(d0, d1, sb, o, id as int, Slot::Indirect, Slot::Single(e as usize), ptr(d0, q as int, e) as int);
                }
            }
            self.free_indirect(q as usize, Ghost(id as int), Ghost(Slot::Indirect));
            proof {
                let d2 = self.cache.view();
                lemma_trimmed_free(d1, d2, sb, id as int, keep);
                lemma_trimmed_trans(d0, d1, d2, sb, id as int, keep);
            }
        }
    }

    /// Cut off and free inode `id`'s double-indirect tree.
    #[verifier::spinoff_prover]
    fn free_inode_tree_double(&mut self, id: u32, Ghost(keep): Ghost<int>)
        requires
            old(self).wf(),
            inode_live(old(self).view(), old(self).sb, id as int),
            keep <= DIRECT_COUNT + POINTERS_PER_BLOCK,
        ensures
            final(self).wf(),
            final(self).sb == old(self).sb,
            trimmed(old(self).view(), final(self).view(), old(self).sb, id as int, keep),
            slot_block(final(self).view(), old(self).sb, id as int, Slot::Double) is None,
    {
        let ghost d0 = self.cache.view();
        let ghost sb = self.sb;
        let ghost o = self.owner@;
        let q = self.cut_word(id, 31, Ghost(Slot::Double));
        let ghost d1 = self.cache.view();
        proof {
            lemma_leafblocks_same(d0, d1, sb, o, -1);
            lemma_trimmed_cut(d0, d1, sb, o, id as int, Slot::Double, keep, 31);
        }
        if q != 0 {
            proof {
                assert(slot_block(d0, sb, id as int, Slot::Double) == Some(q as int));
                lemma_loose_cut(d0, d1, sb, o, id as int, Slot::Double, Slot::Double, q as int);
                lemma_owned_at(d0, sb, o, id as int, Slot::Double, q as int);
                assert forall|e: int|
                    0 <= e < POINTERS_PER_BLOCK && #[trigger] ptr(d1, q as int, e) != 0 implies loose_ptr1(
                        d1,
                        sb,
                        o,
                        id as int,
                        ptr(d1, q as int, e) as int,
                        Slot::Mid(e as usize),
                    ) by {
                    let m = ptr(d0, q as int, e) as int;
                    assert(ptr(d1, q as int, e) == ptr(d0, q as int, e));
                    assert(Slot::Mid(e as usize).valid());
                    assert(slot_block(d0, sb, id as int, Slot::Mid(e as usize)) == Some(m));
                    lemma_loose_cut(d0, d1, sb, o, id as int, Slot::Double, Slot::Mid(e as usize), m);
                    lemma_owned_at(d0, sb, o, id as int, Slot::Mid(e as usize), m);
                    assert forall|l2: int|
                        0 <= l2 < POINTERS_PER_BLOCK && #[trigger] ptr(d1, m, l2) != 0 implies loose(
                            d1,
                            sb,
                            o,
                            id as int,
                            ptr(d1, m, l2) as int,
                            child(Slot::Mid(e as usize), l2 as usize),
                        ) by {
                        assert(ptr(d1, m, l2) == ptr(d0, m, l2));
                        assert(slot_block(d0, sb, id as int, Slot::Leaf(e as usize, l2 as usize)) == Some(ptr(d0, m, l2) as int));
                        lemma_loose_cut(d0, d1, sb, o, id as int, Slot::Double, Slot::Leaf(e as usize, l2 as usize), ptr(d0, m, l2) as int);
                    }
                }
            }
            self.free_double_indirect(q as usize, Ghost(id as int));
            proof {
                let d2 = self.cache.view();
                lemma_trimmed_free(d1, d2, sb, id as int, keep);
                lemma_trimmed_trans(d0, d1, d2, sb, id as int, keep);
            }
        }
    }


    /// Cut off and free inode `id`'s direct blocks from `from` on.
    #[verifier::spinoff_prover]
    fn free_direct_from(&mut self, id: u32, from: usize, Ghost(keep): Ghost<int>)
        requires
            old(self).wf(),
            inode_live(old(self).view(), old(self).sb, id as int),
            keep <= from <= DIRECT_COUNT,
        ensures
            final(self).wf(),
            final(self).sb == old(self).sb,
            trimmed(old(self).view(), final(self).view(), old(self).sb, id as int, keep),
            forall|k: usize|
                from <= k < DIRECT_COUNT ==> #[trigger] slot_block(final(self).view(), old(self).sb, id as int, Slot::Direct(k)) is None,
    {
        let ghost d0 = self.cache.view();
        let ghost sb = self.sb;
        let mut k: usize = from;
        while k < DIRECT_COUNT
            invariant
                self.wf(),
                self.sb == sb,
                from <= k <= DIRECT_COUNT,
                keep <= from,
                inode_live(d0, sb, id as int),
                trimmed(d0, self.cache.view(), sb, id as int, keep),
                forall|k2: usize|
                    from <= k2 < k ==> #[trigger] slot_block(self.cache.view(), sb, id as int, Slot::Direct(k2)) is None,
            decreases DIRECT_COUNT - k,
        {
            let ghost d1 = self.cache.view();
            let ghost o = self.owner@;
            proof {
                assert(inode_live(d1, sb, id as int));
            }
            let q = self.cut_word(id, 4 + k, Ghost(Slot::Direct(k)));
            let ghost d2 = self.cache.view();
            proof {
                lemma_leafblocks_same(d1, d2, sb, o, -1);
                lemma_trimmed_cut(d1, d2, sb, o, id as int, Slot::Direct(k), keep, 4 + k as int);
                lemma_trimmed_trans(d0, d1, d2, sb, id as int, keep);
            }
            if q != 0 {
                proof {
                    assert(slot_block(d1, sb, id as int, Slot::Direct(k)) == Some(q as int));
                    lemma_loose_cut(d1, d2, sb, o, id as int, Slot::Direct(k), Slot::Direct(k), q as int);
                }
                self.free_data_block(q as usize, Ghost(id as int), Ghost(Slot::Direct(k)));
                proof {
                    let d3 = self.cache.view();
                    lemma_trimmed_free(d2, d3, sb, id as int, keep);
                    lemma_trimmed_trans(d0, d2, d3, sb, id as int, keep);
                }
            }
            k = k + 1;
        }
    }

    /// Cut off and free entries `from..` of pointer block `pb`, held by slot `ps` of
    /// inode `id`, and the data blocks they reach.
    #[verifier::spinoff_prover]
    fn free_indirect_from(&mut self, pb: usize, from: usize, Ghost(id): Ghost<int>, Ghost(ps): Ghost<Slot>, Ghost(keep): Ghost<int>)
        requires
            old(self).wf(),
            inode_live(old(self).view(), old(self).sb, id),
            ps == Slot::Indirect || ps is Mid,
            ps.valid(),
            from <= POINTERS_PER_BLOCK,
            slot_block(old(self).view(), old(self).sb, id, ps) == Some(pb as int),
            child(ps, from).first_block() >= keep,
        ensures
            final(self).wf(),
            final(self).sb == old(self).sb,
            trimmed(old(self).view(), final(self).view(), old(self).sb, id, keep),
            forall|e: usize|
                from <= e < POINTERS_PER_BLOCK ==> #[trigger] slot_block(final(self).view(), old(self).sb, id, child(ps, e)) is None,
    {
        let ghost d0 = self.cache.view();
        let ghost sb = self.sb;
        let mut e: usize = from;
        while e < POINTERS_PER_BLOCK
            invariant
                self.wf(),
                self.sb == sb,
                from <= e <= POINTERS_PER_BLOCK,
                ps == Slot::Indirect || ps is Mid,
                ps.valid(),
                inode_live(d0, sb, id),
                child(ps, from).first_block() >= keep,
                trimmed(d0, self.cache.view(), sb, id, keep),
                slot_block(self.cache.view(), sb, id, ps) == Some(pb as int),
                forall|e2: usize|
                    from <= e2 < e ==> #[trigger] slot_block(self.cache.view(), sb, id, child(ps, e2)) is None,
            decreases POINTERS_PER_BLOCK - e,
        {
            let ghost d1 = self.cache.view();
            let ghost o = self.owner@;
            proof {
                assert(inode_live(d1, sb, id));
                lemma_child_slot(d1, sb, o, id, ps, pb as int, e);
                lemma_owned_at(d1, sb, o, id, ps, pb as int);
            }
            let q = self.read_pointer(pb, e);
            if q != 0 {
                let _ = self.cut_entry(pb, e, Ghost(id), Ghost(ps));
                let ghost d2 = self.cache.view();
                proof {
                    assert forall|i: int, ls: Slot|
                        inode_live(d1, sb, i) && ls.valid() && !ls.is_pointer() implies #[trigger] slot_block(d1, sb, i, ls)
                            != Some(pb as int) by {
                        if slot_block(d1, sb, i, ls) == Some(pb as int) {
                            lemma_owned_at(d1, sb, o, i, ls, pb as int);
                        }
                    }
                    lemma_leafblocks_same(d1, d2, sb, o, pb as int);
                    assert(child(ps, e).first_block() >= keep);
                    lemma_trimmed_cut(d1, d2, sb, o, id, child(ps, e), keep, -1);
                    lemma_trimmed_trans(d0, d1, d2, sb, id, keep);
                    lemma_loose_cut(d1, d2, sb, o, id, child(ps, e), child(ps, e), q as int);
                    assert(!under(ps, child(ps, e)));
                }
                self.free_data_block(q as usize, Ghost(id), Ghost(child(ps, e)));
                proof {
                    let d3 = self.cache.view();
                    lemma_trimmed_free(d2, d3, sb, id, keep);
                    lemma_trimmed_trans(d0, d2, d3, sb, id, keep);
                }
            }
            proof {
                let d4 = self.cache.view();
                assert forall|e2: usize|
                    from <= e2 < e + 1 implies #[trigger] slot_block(d4, sb, id, child(ps, e2)) is None by {
                    assert(child(ps, e2).valid());
                }
            }
            e = e + 1;
        }
    }

    /// Cut off and free entries `from..` of double-indirect block `dbl` of inode `id`,
    /// with the trees they reach.
    #[verifier::spinoff_prover]
    fn free_double_from(&mut self, dbl: usize, from: usize, Ghost(id): Ghost<int>, Ghost(keep): Ghost<int>)
        requires
            old(self).wf(),
            inode_live(old(self).view(), old(self).sb, id),
            from <= POINTERS_PER_BLOCK,
            slot_block(old(self).view(), old(self).sb, id, Slot::Double) == Some(dbl as int),
            Slot::Mid(from).first_block() >= keep,
        ensures
            final(self).wf(),
            final(self).sb == old(self).sb,
            trimmed(old(self).view(), final(self).view(), old(self).sb, id, keep),
            forall|e: usize|
                from <= e < POINTERS_PER_BLOCK ==> #[trigger] slot_block(final(self).view(), old(self).sb, id, Slot::Mid(e)) is None,
    {
        let ghost d0 = self.cache.view();
        let ghost sb = self.sb;
        let mut e: usize = from;
        while e < POINTERS_PER_BLOCK
            invariant
                self.wf(),
                self.sb == sb,
                from <= e <= POINTERS_PER_BLOCK,
                inode_live(d0, sb, id),
                Slot::Mid(from).first_block() >= keep,
                trimmed(d0, self.cache.view(), sb, id, keep),
                slot_block(self.cache.view(), sb, id, Slot::Double) == Some(dbl as int),
                forall|e2: usize|
                    from <= e2 < e ==> #[trigger] slot_block(self.cache.view(), sb, id, Slot::Mid(e2)) is None,
            decreases POINTERS_PER_BLOCK - e,
        {
            let ghost d1 = self.cache.view();
            let ghost o = self.owner@;
            proof {
                assert(inode_live(d1, sb, id));
                lemma_child_slot(d1, sb, o, id, Slot::Double, dbl as int, e);
                lemma_owned_at(d1, sb, o, id, Slot::Double, dbl as int);
            }
            let m = self.read_pointer(dbl, e);
            if m != 0 {
                let _ = self.cut_entry(dbl, e, Ghost(id), Ghost(Slot::Double));
                let ghost d2 = self.cache.view();
                proof {
                    assert forall|i: int, ls: Slot|
                        inode_live(d1, sb, i) && ls.valid() && !ls.is_pointer() implies #[trigger] slot_block(d1, sb, i, ls)
                            != Some(dbl as int) by {
                        if slot_block(d1, sb, i, ls) == Some(dbl as int) {
                            lemma_owned_at(d1, sb, o, i, ls, dbl as int);
                        }
                    }
                    lemma_leafblocks_same(d1, d2, sb, o, dbl as int);
                    assert(Slot::Mid(e).first_block() >= keep);
                    lemma_trimmed_cut(d1, d2, sb, o, id, Slot::Mid(e), keep, -1);
                    lemma_trimmed_trans(d0, d1, d2, sb, id, keep);
                    let t = Slot::Mid(e);
                    assert(t.valid());
                    lemma_loose_cut(d1, d2, sb, o, id, t, t, m as int);
                    lemma_owned_at(d1, sb, o, id, t, m as int);
                    assert(d2[m as int] == d1[m as int]);
                    assert forall|l2: int|
                        0 <= l2 < POINTERS_PER_BLOCK && #[trigger] ptr(d2, m as int, l2) != 0 implies loose(
                            d2,
                            sb,
                            o,
                            id,
                            ptr(d2, m as int, l2) as int,
                            child(t, l2 as usize),
                        ) by {
                        assert(ptr(d2, m as int, l2) == ptr(d1, m as int, l2));
                        assert(slot_block(d1, sb, id, Slot::Leaf(e, l2 as usize)) == Some(ptr(d1, m as int, l2) as int));
                        lemma_loose_cut(d1, d2, sb, o, id, t, Slot::Leaf(e, l2 as usize), ptr(d1, m as int, l2) as int);
                    }
                }
                self.free_indirect(m as usize, Ghost(id), Ghost(Slot::Mid(e)));
                proof {
                    let d3 = self.cache.view();
                    lemma_trimmed_free(d2, d3, sb, id, keep);
                    lemma_trimmed_trans(d0, d2, d3, sb, id, keep);
                }
            }
            proof {
                let d4 = self.cache.view();
                assert forall|e2: usize| from <= e2 < e + 1 implies #[trigger] slot_block(d4, sb, id, Slot::Mid(e2)) is None by {
                    assert(Slot::Mid(e2).valid());
                }
            }
            e = e + 1;
        }
    }


    /// Formats the disk under `cache` as a filesystem of `total_blocks` blocks with
    /// `ninodes` inodes, whose root directory is inode [`ROOT_INODE`], and writes it
    /// back to the device.
    #[verifier::spinoff_prover]
    pub fn format(cache: BlockCacheManager<D>, total_blocks: usize, ninodes: usize) -> (r: Fs<D>)
        requires
            cache.inv(),
            format_fits(total_blocks as int, ninodes as int),
            total_blocks <= cache.view().len(),
        ensures
            r.inv(),
            r.spec_sb() == format_sb(total_blocks as int, ninodes as int),
            forall|i: int| #[trigger] r.live(i) == (i == ROOT_INODE),
            r.contents(ROOT_INODE as int) == Seq::<u8>::empty(),
            r.raw_kind(ROOT_INODE as int) == InodeType::Dir.spec_as_raw(),
            r.links(ROOT_INODE as int) == 1,
            r.spec_cache().spec_device().spec_blocks() == r.view(),
    {
        let mut cache = cache;
        proof {
            cache.lemma_view_sized();
            lemma_format_layout(total_blocks as int, ninodes as int, cache.view().len() as int);
        }
        let inode_bitmap_len = ninodes / BITS_PER_BLOCK + if ninodes % BITS_PER_BLOCK == 0 {
            0
        } else {
            1
        };
        let inode_table_len = ninodes / INODES_PER_BLOCK + if ninodes % INODES_PER_BLOCK == 0 {
            0
        } else {
            1
        };
        let remaining = total_blocks - (1 + inode_bitmap_len + inode_table_len);
        let data_bitmap_len = remaining / (BITS_PER_BLOCK + 1) + if remaining % (BITS_PER_BLOCK + 1) == 0 {
            0
        } else {
            1
        };
        let data_len = remaining - data_bitmap_len;
        let inode_bitmap_start: usize = 1;
        let data_bitmap_start = inode_bitmap_start + inode_bitmap_len;
        let inode_table_start = data_bitmap_start + data_bitmap_len;
        let data_start = inode_table_start + inode_table_len;
        let sb = SuperBlock {
            magic: FS_MAGIC,
            block_size: BLOCK_SIZE as u32,
            total_blocks: total_blocks as u32,
            ninodes: ninodes as u32,
            inode_bitmap_start: inode_bitmap_start as u32,
            inode_bitmap_len: inode_bitmap_len as u32,
            data_bitmap_start: data_bitmap_start as u32,
            data_bitmap_len: data_bitmap_len as u32,
            inode_table_start: inode_table_start as u32,
            inode_table_len: inode_table_len as u32,
            data_start: data_start as u32,
            data_len: data_len as u32,
            root_inode: ROOT_INODE,
        };
        proof {
            assert(sb == format_sb(total_blocks as int, ninodes as int));
        }
        let ghost n = cache.view().len();
        let zeros: Vec<u8> = vec![0u8; BLOCK_SIZE];
        let mut block: usize = inode_bitmap_start;
        while block < data_start
            invariant
                cache.inv(),
                cache.view().len() == n,
                1 <= block <= data_start,
                data_start <= n,
                zeros@.len() == BLOCK_SIZE,
                forall|j: int| 0 <= j < BLOCK_SIZE ==> #[trigger] zeros@[j] == 0,
                forall|q: int, j: int| 1 <= q < block && 0 <= j < BLOCK_SIZE ==> #[trigger] cache.view()[q][j] == 0,
            decreases data_start - block,
        {
            let ghost before = cache.view();
            proof {
                cache.lemma_view_sized();
            }
            cache.modify(block, 0, zeros.as_slice());
            proof {
                assert forall|q: int, j: int| 1 <= q < block + 1 && 0 <= j < BLOCK_SIZE implies #[trigger] cache.view()[q][j] == 0 by {
                    if q == block {
                        assert(zeros@[j] == 0);
                    }
                    if q < block {
                        assert(cache.view()[q] == before[q]);
                    }
                }
            }
            block = block + 1;
        }
        let mut sb_bytes: Vec<u8> = vec![0u8; BLOCK_SIZE];
        sb.encode(&mut sb_bytes);
        cache.modify(0, 0, sb_bytes.as_slice());
        proof {
            cache.lemma_view_sized();
            let d = cache.view();
            assert(d[0] =~= sb_bytes@);
            lemma_empty_image(d, sb, Map::empty());
            reveal(tails_zero_but);
        }
        let mut fs = Fs {
            cache,
            sb,
            inode_bitmap: Bitmap::new(inode_bitmap_start, inode_bitmap_len),
            data_bitmap: Bitmap::new(data_bitmap_start, data_bitmap_len),
            owner: Ghost(Map::empty()),
        };
        let ghost f0 = fs;
        proof {
            assert(!f0.live(0));
        }
        let root = fs.alloc_inode(InodeType::Dir);
        let ghost f1 = fs;
        match root {
            Some(root) => {
                proof {
                    if root > 0 {
                        assert(f0.live(0));
                    }
                }
            },
            None => {
                proof {
                    assert(f0.live(0));
                }
            },
        }
        fs.sync();
        proof {
            assert forall|i: int| #[trigger] fs.live(i) == (i == ROOT_INODE) by {
                assert(f1.live(i) == (f0.live(i) || i == 0));
            }
        }
        fs
    }

    /// Mounts the filesystem that `cache`'s disk holds, as its block 0 describes it.
    pub fn mount(cache: BlockCacheManager<D>) -> (r: Fs<D>)
        requires
            cache.inv(),
            valid_image(cache.view()),
        ensures
            r.inv(),
            r.view() == cache.view(),
            r.spec_sb() == SuperBlock::spec_decode(cache.view()[0]),
    {
        let mut cache = cache;
        let ghost d = cache.view();
        let ghost o = choose|o: Map<int, (int, Slot)>| #[trigger] image_ok(d, SuperBlock::spec_decode(d[0]), o);
        let bytes = cache.read(0, 0, SUPERBLOCK_SIZE);
        let sb = SuperBlock::decode(bytes.as_slice());
        proof {
            assert(bytes@ =~= d[0].subrange(0, SUPERBLOCK_SIZE as int));
            assert(SuperBlock::spec_decode(bytes@) == SuperBlock::spec_decode(d[0]));
        }
        let inode_bitmap = Bitmap::new(sb.inode_bitmap_start as usize, sb.inode_bitmap_len as usize);
        let data_bitmap = Bitmap::new(sb.data_bitmap_start as usize, sb.data_bitmap_len as usize);
        Fs { cache, sb, inode_bitmap, data_bitmap, owner: Ghost(o) }
    }

    /// Writes every cached block back and hands the device back; the device then
    /// holds this filesystem.
    pub fn into_device(self) -> (r: D)
        requires
            self.inv(),
        ensures
            r.inv(),
            r.spec_blocks() == self.view(),
            valid_image(r.spec_blocks()),
    {
        proof {
            assert(image_ok(self.view(), SuperBlock::spec_decode(self.view()[0]), self.owner@));
        }
        self.cache.into_device()
    }

    /// The root directory's inode.
    pub fn root_inode(&self) -> (r: u32)
        requires
            self.inv(),
        ensures
            r == self.spec_sb().root_inode,
            r == ROOT_INODE,
    {
        self.sb.root_inode
    }

    /// The superblock in force.
    pub fn superblock(&self) -> (r: SuperBlock)
        ensures
            r == self.spec_sb(),
    {
        self.sb
    }

    /// Writes every dirty cached block back to the device.
    pub fn sync(&mut self)
        requires
            old(self).inv(),
        ensures
            final(self).inv(),
            final(self).view() == old(self).view(),
            final(self).spec_sb() == old(self).spec_sb(),
            final(self).spec_cache().spec_device().spec_blocks() == final(self).view(),
    {
        self.cache.sync_all();
    }

    /// Inode `id`'s whole record.
    pub fn read_disk_inode(&mut self, id: u32) -> (r: DiskInode)
        requires
            old(self).inv(),
            id < old(self).spec_sb().ninodes,
        ensures
            final(self).inv(),
            final(self).view() == old(self).view(),
            final(self).spec_sb() == old(self).spec_sb(),
            r.encoded_at(
                old(self).view()[ino_block(old(self).spec_sb(), id as int)],
                ino_off(id as int),
            ),
            r.type_ == old(self).raw_kind(id as int),
            r.size == old(self).contents(id as int).len(),
            r.nlink == old(self).links(id as int),
    {
        self.read_record(id)
    }

    /// Inode `id`'s length in bytes.
    pub fn inode_size(&mut self, id: u32) -> (r: usize)
        requires
            old(self).inv(),
            id < old(self).spec_sb().ninodes,
        ensures
            final(self).inv(),
            final(self).view() == old(self).view(),
            final(self).spec_sb() == old(self).spec_sb(),
            r == old(self).contents(id as int).len(),
    {
        let size = self.read_word(id, 1);
        size as usize
    }

    /// Inode `id`'s kind, if its record holds a valid one.
    pub fn inode_type(&mut self, id: u32) -> (r: Option<InodeType>)
        requires
            old(self).inv(),
            id < old(self).spec_sb().ninodes,
        ensures
            final(self).inv(),
            final(self).view() == old(self).view(),
            final(self).spec_sb() == old(self).spec_sb(),
            r == InodeType::spec_from_raw(old(self).raw_kind(id as int)),
    {
        let raw = self.read_word(id, 0);
        InodeType::from_raw(raw)
    }

    /// How many data blocks are in use.
    pub fn used_data_blocks(&mut self) -> (r: usize)
        requires
            old(self).inv(),
        ensures
            final(self).inv(),
            final(self).view() == old(self).view(),
            final(self).spec_sb() == old(self).spec_sb(),
            r == count_used(old(self).view(), old(self).spec_sb(), old(self).spec_sb().data_len as int),
    {
        let data_len = self.sb.data_len as usize;
        let mut count: usize = 0;
        let mut i: usize = 0;
        while i < data_len
            invariant
                self.inv(),
                self.view() == old(self).view(),
                self.spec_sb() == old(self).spec_sb(),
                data_len == self.sb.data_len,
                i <= data_len,
                count == count_used(self.view(), self.sb, i as int),
                count <= i,
            decreases data_len - i,
        {
            let used = self.data_bitmap.is_allocated(&mut self.cache, i);
            if used {
                count = count + 1;
            }
            i = i + 1;
        }
        count
    }

    /// Overwrite inode `id`'s record with `di`.
    fn write_record(&mut self, id: u32, di: &DiskInode)
        requires
            old(self).cache.inv(),
            sb_layout(old(self).sb, old(self).cache.view().len() as int),
            blocks_sized(old(self).cache.view()),
            id < old(self).sb.ninodes,
        ensures
            final(self).cache.inv(),
            final(self).sb == old(self).sb,
            final(self).owner == old(self).owner,
            final(self).inode_bitmap == old(self).inode_bitmap,
            final(self).data_bitmap == old(self).data_bitmap,
            record_written(old(self).cache.view(), final(self).cache.view(), old(self).sb, id as int, *di),
    {
        let (block, offset) = self.inode_pos(id);
        let mut bytes: Vec<u8> = vec![0u8; INODE_SIZE];
        di.encode(&mut bytes, 0);
        self.cache.modify(block, offset, bytes.as_slice());
        proof {
            di.lemma_encoded_splice(old(self).cache.view()[block as int], offset as int, bytes@);
        }
    }

    /// Allocates the lowest free inode as an empty file of kind `kind` with one
    /// link, or returns `None` (changing nothing) when every inode is in use.
    #[verifier::spinoff_prover]
    pub fn alloc_inode(&mut self, kind: InodeType) -> (r: Option<u32>)
        requires
            old(self).inv(),
        ensures
            final(self).inv(),
            final(self).spec_sb() == old(self).spec_sb(),
            match r {
                None => {
                    &&& forall|i: int| 0 <= i < old(self).spec_sb().ninodes ==> old(self).live(i)
                    &&& final(self).view() == old(self).view()
                },
                Some(id) => {
                    &&& id < old(self).spec_sb().ninodes
                    &&& !old(self).live(id as int)
                    &&& forall|j: int| 0 <= j < id ==> old(self).live(j)
                    &&& forall|i: int| #[trigger] final(self).live(i) == (old(self).live(i) || i == id)
                    &&& final(self).contents(id as int) == Seq::<u8>::empty()
                    &&& final(self).raw_kind(id as int) == kind.spec_as_raw()
                    &&& final(self).links(id as int) == 1
                    &&& final(self).holds_no_blocks(id as int)
                    &&& final(self).is_data_full() == old(self).is_data_full()
                    &&& forall|i: int| old(self).live(i) ==> #[trigger] final(self).contents(i) == old(self).contents(i)
                    &&& forall|i: int|
                        old(self).live(i) ==> #[trigger] final(self).raw_kind(i) == old(self).raw_kind(i)
                            && final(self).links(i) == old(self).links(i)
                },
            },
    {
        let ghost d0 = self.view();
        let ghost sb = self.sb;
        let ghost o = self.owner@;
        proof {
            reveal(tails_zero_but);
        }
        let bit = match self.inode_bitmap.allocate(&mut self.cache) {
            Some(bit) => bit,
            None => {
                return None;
            },
        };
        if bit >= self.sb.ninodes as usize {
            proof {
                lemma_with_bit(d0, sb.inode_bitmap_start as int, bit as int, true, bit as int, sb.inode_bitmap_len as int);
            }
            self.inode_bitmap.dealloc(&mut self.cache, bit);
            proof {
                lemma_bit_roundtrip(d0, sb.inode_bitmap_start as int, bit as int, sb.inode_bitmap_len as int);
            }
            return None;
        }
        let id = bit as u32;
        let di = DiskInode {
            type_: kind.as_raw(),
            size: 0,
            nlink: 1,
            _reserved: 0,
            direct: [0u32; DIRECT_COUNT],
            indirect: 0,
            double_indirect: 0,
        };
        proof {
            lemma_with_bit(d0, sb.inode_bitmap_start as int, bit as int, true, bit as int, sb.inode_bitmap_len as int);
            assert(forall|i: int| 0 <= i < d0.len() ==> #[trigger] self.cache.view()[i].len() == BLOCK_SIZE);
        }
        self.write_record(id, &di);
        proof {
            lemma_alloc_finish(d0, self.view(), sb, o, id as int, di);
            lemma_full_same(d0, self.view(), sb);
        }
        Some(id)
    }

    /// Releases inode `id` and every block it holds.
    #[verifier::spinoff_prover]
    pub fn free_inode(&mut self, id: u32)
        requires
            old(self).inv(),
            old(self).live(id as int),
        ensures
            final(self).inv(),
            final(self).spec_sb() == old(self).spec_sb(),
            forall|i: int| #[trigger] final(self).live(i) == (old(self).live(i) && i != id),
            final(self).raw_kind(id as int) == 0,
            forall|i: int| old(self).live(i) && i != id ==> #[trigger] final(self).contents(i) == old(self).contents(i),
            forall|i: int| old(self).live(i) && i != id ==> #[trigger] final(self).raw_kind(i) == old(self).raw_kind(i),
            forall|i: int| old(self).live(i) && i != id ==> #[trigger] final(self).links(i) == old(self).links(i),
    {
        let ghost d0 = self.view();
        let ghost sb = self.sb;
        self.free_from(id, 0);
        let ghost d1 = self.view();
        let ghost o = self.owner@;
        let di = DiskInode::zeroed();
        self.write_record(id, &di);
        let ghost d2 = self.view();
        proof {
            lemma_free_finish(d0, d1, d2, sb, o, id as int, di);
            lemma_ino_bit_in_bitmap(sb, id as int, d0.len() as int);
            lemma_with_bit(d2, sb.inode_bitmap_start as int, id as int, false, id as int, sb.inode_bitmap_len as int);
            lemma_with_bit(d0, sb.inode_bitmap_start as int, id as int, false, id as int, sb.inode_bitmap_len as int);
        }
        self.inode_bitmap.dealloc(&mut self.cache, id as usize);
        proof {
            let d3 = self.view();
            assert(d3 == with_bit(d2, sb.inode_bitmap_start as int, id as int, false));
            assert forall|i: int| old(self).live(i) && i != id implies #[trigger] self.links(i) == old(self).links(i) by {
                assert(ino_word(d3, sb, i, 0) == ino_word(d0, sb, i, 0));
            }
        }
    }

    /// How many inodes the filesystem has.
    pub(crate) fn sb_ninodes(&self) -> (r: u32)
        ensures
            r == self.spec_sb().ninodes,
    {
        self.sb.ninodes
    }

    /// Whether inode `id` is in use.
    pub(crate) fn is_live(&mut self, id: u32) -> (r: bool)
        requires
            old(self).inv(),
            id < old(self).spec_sb().ninodes,
        ensures
            final(self).inv(),
            final(self).view() == old(self).view(),
            final(self).spec_sb() == old(self).spec_sb(),
            r == old(self).live(id as int),
    {
        self.inode_bitmap.is_allocated(&mut self.cache, id as usize)
    }

    /// Sets inode `id`'s link count to `v`.
    pub(crate) fn set_links(&mut self, id: u32, v: u32)
        requires
            old(self).inv(),
            old(self).live(id as int),
        ensures
            final(self).inv(),
            final(self).spec_sb() == old(self).spec_sb(),
            final(self).links(id as int) == v,
            final(self).is_data_full() == old(self).is_data_full(),
            forall|i: int| #[trigger] final(self).live(i) == old(self).live(i),
            forall|i: int| old(self).live(i) ==> #[trigger] final(self).contents(i) == old(self).contents(i),
            forall|i: int| old(self).live(i) ==> #[trigger] final(self).raw_kind(i) == old(self).raw_kind(i),
            forall|i: int| old(self).live(i) && i != id ==> #[trigger] final(self).links(i) == old(self).links(i),
    {
        let ghost d0 = self.view();
        let ghost sb = self.sb;
        let ghost o = self.owner@;
        proof {
            reveal(tails_zero_but);
            lemma_set_meta_word(d0, sb, o, id as int, 2, v);
        }
        self.write_word(id, 2, v);
        proof {
            let d1 = self.view();
            lemma_full_same(d0, d1, sb);
            assert forall|i: int| old(self).live(i) implies #[trigger] self.raw_kind(i) == old(self).raw_kind(i) by {
                assert(ino_word(d1, sb, i, 0) == ino_word(d0, sb, i, 0));
            }
            assert forall|i: int| old(self).live(i) && i != id implies #[trigger] self.links(i) == old(self).links(i) by {
                assert(ino_word(d1, sb, i, 2) == ino_word(d0, sb, i, 2));
            }
        }
    }

    /// Releases inode `id`, which reaches no block: its record is zeroed and its bit
    /// cleared, and no block changes hands.
    #[verifier::spinoff_prover]
    pub(crate) fn release_inode(&mut self, id: u32)
        requires
            old(self).inv(),
            old(self).live(id as int),
            old(self).holds_no_blocks(id as int),
        ensures
            final(self).inv(),
            final(self).spec_sb() == old(self).spec_sb(),
            final(self).is_data_full() == old(self).is_data_full(),
            forall|i: int| #[trigger] final(self).live(i) == (old(self).live(i) && i != id),
            forall|i: int| old(self).live(i) && i != id ==> #[trigger] final(self).contents(i) == old(self).contents(i),
            forall|i: int|
                old(self).live(i) && i != id ==> #[trigger] final(self).raw_kind(i) == old(self).raw_kind(i)
                    && final(self).links(i) == old(self).links(i),
    {
        let ghost d0 = self.view();
        let ghost sb = self.sb;
        let ghost o = self.owner@;
        proof {
            assert forall|i: int, p: int|
                #![trigger file_byte(d0, sb, i, p)]
                inode_live(d0, sb, i) && 0 <= p < MAX_FILE_SIZE implies file_byte(d0, sb, i, p) == if i == id {
                    0
                } else {
                    file_byte(d0, sb, i, p)
                } by {
                if i == id {
                    let kk = p / BLOCK_SIZE as int;
                    assert(0 <= kk < MAX_FILE_BLOCKS) by (nonlinear_arith)
                        requires
                            0 <= p < MAX_FILE_SIZE,
                            kk == p / 512,
                            MAX_FILE_SIZE == MAX_FILE_BLOCKS * 512,
                    ;
                    lemma_leaf_slot(kk);
                }
            }
        }
        let di = DiskInode::zeroed();
        self.write_record(id, &di);
        let ghost d2 = self.view();
        proof {
            lemma_free_finish(d0, d0, d2, sb, o, id as int, di);
            lemma_ino_bit_in_bitmap(sb, id as int, d0.len() as int);
            lemma_with_bit(d2, sb.inode_bitmap_start as int, id as int, false, id as int, sb.inode_bitmap_len as int);
        }
        self.inode_bitmap.dealloc(&mut self.cache, id as usize);
        proof {
            let d3 = self.view();
            assert(d3 == with_bit(d2, sb.inode_bitmap_start as int, id as int, false));
            lemma_full_same(d0, d3, sb);
            assert forall|i: int| old(self).live(i) && i != id implies #[trigger] self.links(i) == old(self).links(i) by {
                assert(ino_word(d3, sb, i, 0) == ino_word(d0, sb, i, 0));
            }
        }
    }

    /// Resizes inode `id` to `new_len` bytes: shrinking frees the blocks past the
    /// new end and zeroes the cut tail of the block kept; growing leaves a hole that
    /// reads as zeros.
    #[verifier::spinoff_prover]
    pub fn set_len(&mut self, id: u32, new_len: usize)
        requires
            old(self).inv(),
            old(self).live(id as int),
            new_len <= MAX_FILE_SIZE,
        ensures
            final(self).inv(),
            final(self).spec_sb() == old(self).spec_sb(),
            forall|i: int| #[trigger] final(self).live(i) == old(self).live(i),
            final(self).contents(id as int) == spec_resize(old(self).contents(id as int), new_len as int),
            forall|i: int|
                old(self).live(i) && i != id ==> #[trigger] final(self).contents(i) == old(self).contents(i),
            forall|i: int|
                old(self).live(i) ==> #[trigger] final(self).raw_kind(i) == old(self).raw_kind(i)
                    && final(self).links(i) == old(self).links(i),
            new_len == 0 && old(self).contents(id as int).len() > 0 ==> final(self).holds_no_blocks(id as int),
            new_len >= old(self).contents(id as int).len() ==> forall|b: int|
                #[trigger] data_used(final(self).view(), final(self).spec_sb(), b)
                    == data_used(old(self).view(), old(self).spec_sb(), b),
    {
        let ghost d0 = self.view();
        let ghost sb = self.sb;
        let size = self.read_word(id, 1);
        proof {
            assert(self.view() == d0);
            assert(file_size(d0, sb, id as int) == size);
        }
        if new_len < size as usize {
            self.free_from(id, new_len);
            proof {
                assert(inode_live(self.view(), sb, id as int));
                if new_len == 0 {
                    lemma_tops_clear_empty(self.view(), sb, id as int);
                }
            }
        }
        let ghost d4 = self.view();
        let ghost o = self.owner@;
        proof {
            lemma_set_size(d4, sb, o, id as int, new_len as u32);
        }
        self.write_word(id, 1, new_len as u32);
        proof {
            let d5 = self.view();
            lemma_resize_finish(d0, d4, d5, sb, id as int, new_len as int);
            if new_len == 0 && old(self).contents(id as int).len() > 0 {
                assert(file_size(d0, sb, id as int) > 0);
                assert forall|s: Slot| s.valid() implies #[trigger] slot_block(d5, sb, id as int, s) is None by {
                    assert(slot_block(d4, sb, id as int, s) is None);
                }
            }
        }
    }

    /// Cut off and free inode `id`'s blocks from `keep` on, for `keep` among the
    /// direct blocks.
    #[verifier::spinoff_prover]
    fn free_from_direct(&mut self, id: u32, i: usize, Ghost(keep): Ghost<int>)
        requires
            old(self).wf(),
            inode_live(old(self).view(), old(self).sb, id as int),
            keep == i,
            i < DIRECT_COUNT,
        ensures
            final(self).wf(),
            final(self).sb == old(self).sb,
            trimmed(old(self).view(), final(self).view(), old(self).sb, id as int, keep),
            tops_clear(final(self).view(), old(self).sb, id as int, keep),
    {
        let ghost sb = self.sb;
        let ghost d1 = self.cache.view();
        self.free_direct_from(id, i, Ghost(keep));
        let ghost d2 = self.cache.view();
        self.free_inode_tree_single(id, Ghost(keep));
        let ghost d3 = self.cache.view();
        self.free_inode_tree_double(id, Ghost(keep));
        proof {
            let d4 = self.cache.view();
            lemma_trimmed_trans(d1, d2, d3, sb, id as int, keep);
            lemma_trimmed_trans(d1, d3, d4, sb, id as int, keep);
            lemma_tops_direct(d2, d3, d4, sb, id as int, keep);
        }
    }

    /// Cut off and free inode `id`'s blocks from `keep` on, for `keep` among the
    /// single-indirect blocks.
    #[verifier::spinoff_prover]
    fn free_from_single(&mut self, id: u32, i: usize, Ghost(keep): Ghost<int>)
        requires
            old(self).wf(),
            inode_live(old(self).view(), old(self).sb, id as int),
            keep == DIRECT_COUNT + i,
            i < POINTERS_PER_BLOCK,
        ensures
            final(self).wf(),
            final(self).sb == old(self).sb,
            trimmed(old(self).view(), final(self).view(), old(self).sb, id as int, keep),
            tops_clear(final(self).view(), old(self).sb, id as int, keep),
    {
        let ghost sb = self.sb;
        let ghost d2a = self.cache.view();
        if i == 0 {
            self.free_inode_tree_single(id, Ghost(keep));
        } else {
            let ind = self.read_word(id, 30);
            if ind != 0 {
                proof {
                    assert(slot_block(d2a, sb, id as int, Slot::Indirect) == Some(ind as int));
                }
                self.free_indirect_from(ind as usize, i, Ghost(id as int), Ghost(Slot::Indirect), Ghost(keep));
            } else {
                proof {
                    lemma_trimmed_refl(d2a, sb, id as int, keep);
                }
            }
        }
        let ghost d3 = self.cache.view();
        self.free_inode_tree_double(id, Ghost(keep));
        proof {
            let d4 = self.cache.view();
            lemma_trimmed_trans(d2a, d3, d4, sb, id as int, keep);
            lemma_tops_single(d2a, d3, d4, sb, id as int, keep, i);
        }
    }

    /// Cut off and free inode `id`'s blocks from `keep` on, for `keep` at or past the
    /// first double-indirect block.
    #[verifier::spinoff_prover]
    fn free_from_double(&mut self, id: u32, l1: usize, l2: usize, Ghost(keep): Ghost<int>)
        requires
            old(self).wf(),
            inode_live(old(self).view(), old(self).sb, id as int),
            keep == DIRECT_COUNT + POINTERS_PER_BLOCK + POINTERS_PER_BLOCK * l1 + l2,
            l2 < POINTERS_PER_BLOCK,
            l1 <= POINTERS_PER_BLOCK,
            l1 == POINTERS_PER_BLOCK ==> l2 == 0,
        ensures
            final(self).wf(),
            final(self).sb == old(self).sb,
            trimmed(old(self).view(), final(self).view(), old(self).sb, id as int, keep),
            tops_clear(final(self).view(), old(self).sb, id as int, keep),
    {
        let ghost sb = self.sb;
        if l1 == 0 && l2 == 0 {
            self.free_inode_tree_double(id, Ghost(keep));
            proof {
                lemma_tops_no_double(self.cache.view(), sb, id as int, keep);
            }
            return;
        }
        let dbl = self.read_word(id, 31);
        let ghost d2a = self.cache.view();
        if dbl == 0 {
            proof {
                lemma_trimmed_refl(d2a, sb, id as int, keep);
                lemma_tops_no_double(d2a, sb, id as int, keep);
            }
            return;
        }
        proof {
            assert(slot_block(d2a, sb, id as int, Slot::Double) == Some(dbl as int));
        }
        if l2 != 0 {
            let ghost o = self.owner@;
            proof {
                lemma_child_slot(d2a, sb, o, id as int, Slot::Double, dbl as int, l1);
                lemma_owned_at(d2a, sb, o, id as int, Slot::Double, dbl as int);
            }
            let mid = self.read_pointer(dbl as usize, l1);
            if mid != 0 {
                self.free_indirect_from(mid as usize, l2, Ghost(id as int), Ghost(Slot::Mid(l1)), Ghost(keep));
            } else {
                proof {
                    lemma_trimmed_refl(d2a, sb, id as int, keep);
                }
            }
        } else {
            proof {
                lemma_trimmed_refl(d2a, sb, id as int, keep);
            }
        }
        let from = if l2 == 0 {
            l1
        } else {
            l1 + 1
        };
        let ghost d3 = self.cache.view();
        proof {
            assert(slot_block(d3, sb, id as int, Slot::Double) == Some(dbl as int));
        }
        self.free_double_from(dbl as usize, from, Ghost(id as int), Ghost(keep));
        proof {
            let d4 = self.cache.view();
            lemma_trimmed_trans(d2a, d3, d4, sb, id as int, keep);
            lemma_tops_double(d2a, d3, d4, sb, id as int, keep, l1, l2, dbl as int, from);
        }
    }

    /// Zero the bytes of inode `id`'s file from `new_len` to the end of the block
    /// that holds byte `new_len`.
    #[verifier::spinoff_prover]
    fn zero_tail(&mut self, id: u32, new_len: usize, keep: usize)
        requires
            old(self).wf(),
            inode_live(old(self).view(), old(self).sb, id as int),
            new_len <= MAX_FILE_SIZE,
            keep == (new_len + 511) / 512,
        ensures
            final(self).wf(),
            final(self).sb == old(self).sb,
            forall|i: int| #[trigger] inode_live(final(self).view(), old(self).sb, i) == inode_live(old(self).view(), old(self).sb, i),
            same_words_but(old(self).view(), final(self).view(), old(self).sb, -1, -1),
            forall|i: int, p: int|
                #![trigger file_byte(final(self).view(), old(self).sb, i, p)]
                inode_live(old(self).view(), old(self).sb, i) && 0 <= p < MAX_FILE_SIZE && !(i == id && new_len <= p)
                    ==> file_byte(final(self).view(), old(self).sb, i, p) == file_byte(old(self).view(), old(self).sb, i, p),
            forall|b: int| #[trigger] data_used(final(self).view(), old(self).sb, b) == data_used(old(self).view(), old(self).sb, b),
            forall|p: int|
                new_len <= p < keep * BLOCK_SIZE && p < MAX_FILE_SIZE ==> #[trigger] file_byte(
                    final(self).view(),
                    old(self).sb,
                    id as int,
                    p,
                ) == 0,
    {
        let ghost d0 = self.cache.view();
        let ghost sb = self.sb;
        let tail = new_len % BLOCK_SIZE;
        proof {
            vstd::arithmetic::div_mod::lemma_fundamental_div_mod(new_len as int, 512);
            vstd::arithmetic::div_mod::lemma_fundamental_div_mod((new_len + 511) as int, 512);
            assert(keep <= MAX_FILE_BLOCKS);
            assert(tail == 0 ==> new_len == keep * 512);
            assert(tail != 0 ==> keep >= 1 && new_len == (keep - 1) * 512 + tail);
        }
        if tail != 0 {
            let di = self.read_record(id);
            match self.block_map(id, &di, keep - 1) {
                Some(block) => {
                    let rest = BLOCK_SIZE - tail;
                    let zeros: Vec<u8> = vec![0u8; rest];
                    self.write_chunk(id, keep - 1, block, tail, zeros.as_slice());
                },
                None => {},
            }
        }
        proof {
            let d1 = self.cache.view();
            assert forall|p: int| new_len <= p < keep * BLOCK_SIZE && p < MAX_FILE_SIZE implies #[trigger] file_byte(
                d1,
                sb,
                id as int,
                p,
            ) == 0 by {
                vstd::arithmetic::div_mod::lemma_fundamental_div_mod(p, 512);
            }
        }
    }

    /// Cut inode `id`'s tree back from file block `keep` on, freeing what is cut off.
    #[verifier::spinoff_prover]
    fn trim_from(&mut self, id: u32, keep: usize)
        requires
            old(self).wf(),
            inode_live(old(self).view(), old(self).sb, id as int),
            keep <= MAX_FILE_BLOCKS,
        ensures
            final(self).wf(),
            final(self).sb == old(self).sb,
            trimmed(old(self).view(), final(self).view(), old(self).sb, id as int, keep as int),
            forall|k: int| keep <= k < MAX_FILE_BLOCKS ==> #[trigger] file_block(final(self).view(), old(self).sb, id as int, k) is None,
            tops_clear(final(self).view(), old(self).sb, id as int, keep as int),
    {
        match locate_block(keep) {
            BlockSlot::Direct(i) => {
                self.free_from_direct(id, i, Ghost(keep as int));
            },
            BlockSlot::SingleIndirect(i) => {
                self.free_from_single(id, i, Ghost(keep as int));
            },
            BlockSlot::DoubleIndirect { l1, l2 } => {
                proof {
                    let r = keep - 154;
                    vstd::arithmetic::div_mod::lemma_fundamental_div_mod(r as int, 128);
                }
                self.free_from_double(id, l1, l2, Ghost(keep as int));
            },
        }
        proof {
            lemma_cleared(self.cache.view(), self.sb, id as int, keep as int);
        }
    }

    /// Frees blocks beyond `new_len` and zeroes bytes after it in the retained block.
    #[verifier::spinoff_prover]
    fn free_from(&mut self, id: u32, new_len: usize)
        requires
            old(self).wf(),
            inode_live(old(self).view(), old(self).sb, id as int),
            new_len <= MAX_FILE_SIZE,
        ensures
            final(self).wf(),
            final(self).sb == old(self).sb,
            forall|i: int| #[trigger] inode_live(final(self).view(), old(self).sb, i) == inode_live(old(self).view(), old(self).sb, i),
            forall|i: int, w: int|
                #![trigger ino_word(final(self).view(), old(self).sb, i, w)]
                inode_live(old(self).view(), old(self).sb, i) && 0 <= w < 4 ==> ino_word(final(self).view(), old(self).sb, i, w)
                    == ino_word(old(self).view(), old(self).sb, i, w),
            forall|i: int, p: int|
                #![trigger file_byte(final(self).view(), old(self).sb, i, p)]
                inode_live(old(self).view(), old(self).sb, i) && 0 <= p < MAX_FILE_SIZE ==> file_byte(
                    final(self).view(),
                    old(self).sb,
                    i,
                    p,
                ) == if i == id && p >= new_len {
                    0
                } else {
                    file_byte(old(self).view(), old(self).sb, i, p)
                },
            forall|b: int| #[trigger] data_used(final(self).view(), old(self).sb, b) ==> data_used(old(self).view(), old(self).sb, b),
            new_len == 0 ==> tops_clear(final(self).view(), old(self).sb, id as int, 0),
    {
        let ghost d0 = self.cache.view();
        let ghost sb = self.sb;
        let keep = (new_len + (BLOCK_SIZE - 1)) / BLOCK_SIZE;
        proof {
            vstd::arithmetic::div_mod::lemma_fundamental_div_mod((new_len + 511) as int, 512);
            assert(keep <= MAX_FILE_BLOCKS);
            assert(new_len <= keep * 512);
        }
        self.zero_tail(id, new_len, keep);
        let ghost d1 = self.cache.view();
        self.trim_from(id, keep);
        proof {
            let d4 = self.cache.view();
            lemma_trim_bytes(d1, d4, sb, id as int, keep as int, new_len as int);
            lemma_free_from_effect(d0, d1, d4, sb, id as int, keep as int, new_len as int);
        }
    }

}

} // verus!
