//! The page-table type: one page of hardware-defined entries.
//!
//! `Table` is pure data, plus only those operations that touch this table's own
//! entries — no frame allocation, no way to reach another frame.

use vstd::prelude::*;

use crate::addr::{spec_vpn, PhysicalAddr, VirtualAddr};
use crate::geometry::{ENTRIES_PER_PAGE, GIGAPAGE, ROOT_ENTRIES_PER_HALF};
use crate::pte::{spec_flags_leaf, spec_flags_legal, spec_leaf_entry, Entry, PteFlags};

verus! {

/// A single page table: 512 entries filling exactly one 4 KiB frame.
pub struct Table {
    pub entries: Vec<Entry>,
}

impl Table {
    /// A table holds exactly one page of entries.
    pub open spec fn wf(&self) -> bool {
        self.entries.len() == 512
    }

    /// An empty table: every entry invalid.
    pub fn new() -> (r: Self)
        ensures
            r.wf(),
            forall|i: int| 0 <= i < 512 ==> #[trigger] r.entries@[i] == Entry(0),
    {
        let mut entries: Vec<Entry> = Vec::new();
        let mut i: usize = 0;
        while i < ENTRIES_PER_PAGE
            invariant
                i <= 512,
                entries.len() == i,
                forall|j: int| 0 <= j < i ==> #[trigger] entries@[j] == Entry(0),
            decreases 512 - i,
        {
            entries.push(Entry::empty());
            i += 1;
        }
        Table { entries }
    }

    /// Install a 1 GiB leaf directly in this root table.
    ///
    /// Both addresses must be 1 GiB aligned and `flags` a legal leaf.
    pub fn map_gigapage(&mut self, vaddr: VirtualAddr, paddr: PhysicalAddr, flags: PteFlags)
        requires
            old(self).wf(),
            spec_flags_leaf(flags.bits),
            spec_flags_legal(flags.bits),
            vaddr.0 % 0x4000_0000 == 0,
            paddr.0 % 0x4000_0000 == 0,
        ensures
            final(self).wf(),
            final(self).entries@ == old(self).entries@.update(
                spec_vpn(vaddr.0, 2) as int,
                spec_leaf_entry(paddr.0, flags.bits),
            ),
    {
        let index = vaddr.vpn(2);
        self.entries.set(index, Entry::leaf(paddr, flags));
    }

    /// The table a higher-half kernel enters paging on: the low canonical half
    /// identity mapped with a gigapage in every slot, and the first `offset_span`
    /// bytes of physical memory mirrored at `va_offset` (`VA == PA + va_offset`).
    ///
    /// `va_offset` must be the gigapage-aligned base of the high canonical half, and
    /// `offset_span` a non-zero number of whole gigapages that fits in that half.
    /// Root slots above the window are left invalid.
    pub fn identity_and_offset(va_offset: u64, offset_span: u64, flags: PteFlags) -> (r: Self)
        requires
            va_offset == 0xffff_ffc0_0000_0000,
            offset_span % 0x4000_0000 == 0,
            0 < offset_span / 0x4000_0000 <= 256,
            spec_flags_leaf(flags.bits),
            spec_flags_legal(flags.bits),
        ensures
            r.wf(),
            forall|i: int|
                0 <= i < 256 ==> #[trigger] r.entries@[i] == spec_leaf_entry(
                    (i * 0x4000_0000) as u64,
                    flags.bits,
                ),
            forall|i: int|
                0 <= i < 256 ==> #[trigger] r.entries@[256 + i] == if i < offset_span
                    / 0x4000_0000 {
                    spec_leaf_entry((i * 0x4000_0000) as u64, flags.bits)
                } else {
                    Entry(0)
                },
    {
        let offset_slots = offset_span / GIGAPAGE;
        proof {
            assert(((0xffff_ffc0_0000_0000u64 >> 30u64) & (((1u64 << 9u64) - 1) as u64)) == 256u64) by (bit_vector);
            assert(crate::utils::spec_mask(9) == ((1u64 << 9u64) - 1) as u64);
            assert(spec_vpn(va_offset, 2) == 256);
        }
        let mut table = Self::new();
        let mut index: usize = 0;
        while index < ROOT_ENTRIES_PER_HALF
            invariant
                index <= 256,
                table.wf(),
                1 <= offset_slots <= 256,
                offset_slots == offset_span / 0x4000_0000,
                va_offset % 0x4000_0000 == 0,
                spec_vpn(va_offset, 2) == 256,
                spec_flags_leaf(flags.bits),
                spec_flags_legal(flags.bits),
                forall|i: int|
                    0 <= i < index ==> #[trigger] table.entries@[i] == spec_leaf_entry(
                        (i * 0x4000_0000) as u64,
                        flags.bits,
                    ),
                forall|i: int| index <= i < 256 ==> #[trigger] table.entries@[i] == Entry(0),
                forall|i: int|
                    0 <= i < 256 ==> #[trigger] table.entries@[256 + i] == if i < index && i
                        < offset_slots {
                        spec_leaf_entry((i * 0x4000_0000) as u64, flags.bits)
                    } else {
                        Entry(0)
                    },
            decreases 256 - index,
        {
            let base = (index as u64) * GIGAPAGE;
            let pa = PhysicalAddr::new(base);
            proof {
                lemma_gigapage_slot(va_offset, index as u64);
            }
            table.map_gigapage(VirtualAddr::new(base), pa, flags);
            if index < offset_slots as usize {
                table.map_gigapage(VirtualAddr::new(va_offset + base), pa, flags);
            }
            index += 1;
        }
        table
    }
}

/// Where the gigapages `index` slots into each half land in the root table.
proof fn lemma_gigapage_slot(va_offset: u64, index: u64)
    requires
        va_offset % 0x4000_0000 == 0,
        spec_vpn(va_offset, 2) == 256,
        index < 256,
    ensures
        (index * 0x4000_0000) % 0x4000_0000 == 0,
        spec_vpn((index * 0x4000_0000) as u64, 2) == index,
        va_offset + index * 0x4000_0000 <= u64::MAX,
        (va_offset + index * 0x4000_0000) % 0x4000_0000 == 0,
        spec_vpn((va_offset + index * 0x4000_0000) as u64, 2) == 256 + index,
{
    crate::utils::lemma_mask_values();
    let g = index << 30u64;
    assert(index << 30u64 == index * 0x4000_0000) by (bit_vector)
        requires
            index < 256,
    ;
    assert(va_offset % 0x4000_0000 == 0 ==> va_offset & 0x3fff_ffff == 0) by (bit_vector);
    assert(((index << 30u64) >> 30u64) & 0x1ffu64 == index) by (bit_vector)
        requires
            index < 256,
    ;
    assert((index << 30u64) % 0x4000_0000 == 0) by (bit_vector);
    assert(va_offset + (index << 30u64) <= u64::MAX && ((va_offset + (index << 30u64)) as u64)
        % 0x4000_0000 == 0 && ((((va_offset + (index << 30u64)) as u64) >> 30u64) & 0x1ffu64)
        == 256 + index) by (bit_vector)
        requires
            index < 256,
            va_offset & 0x3fff_ffff == 0,
            (va_offset >> 30u64) & 0x1ffu64 == 256,
    ;
}

impl Default for Table {
    fn default() -> (r: Self)
        ensures
            r.wf(),
            forall|i: int| 0 <= i < 512 ==> #[trigger] r.entries@[i] == Entry(0),
    {
        Self::new()
    }
}

} // verus!
