//! The paging geometry every RV64 translation scheme shares.
//!
//! Sv39, Sv48 and Sv57 differ in exactly one thing: how many levels a walk
//! descends. Everything here is common to all three.
//!
//! ```text
//! Virtual address (12 + 9 bits per level, sign-extended to 64):
//!   | ... | VPN[1] 29:21 | VPN[0] 20:12 | offset 11:0 |
//! Physical address (56 bits):
//!   | PPN 55:12 | offset 11:0 |
//! Page-table entry (identical in every scheme):
//!   | PPN 53:10 | RSW 9:8 | DAGUXWRV 7:0 |
//! ```

use vstd::prelude::*;

verus! {

/// Bits of byte offset within a base page.
pub const PAGE_OFFSET_BITS: u64 = 12;

/// Size of a base page in bytes.
pub const PAGE_SIZE: u64 = 4096;

/// Virtual-page-number index bits consumed per level.
pub const VPN_BITS: u64 = 9;

/// Levels the deepest scheme can walk: a sixth level would need 66 bits of address.
pub const MAX_LEVELS: usize = 5;

/// Size of one page-table entry in bytes.
pub const ENTRY_SIZE: usize = 8;

/// Number of entries in a single page table (fills exactly one page).
pub const ENTRIES_PER_PAGE: usize = 512;

/// Root-table slots in one canonical half of the address space.
pub const ROOT_ENTRIES_PER_HALF: usize = 256;

/// Total width of a physical page number, the same in every scheme.
pub const PPN_BITS: u64 = 44;

/// Bytes mapped by one level-1 leaf (2 MiB).
pub const SUPERPAGE: u64 = 0x20_0000;

/// Bytes mapped by one level-2 leaf (1 GiB).
pub const GIGAPAGE: u64 = 0x4000_0000;

/// Bit position at which the in-page offset of a level-`level` leaf ends.
pub open spec fn spec_page_shift(level: nat) -> nat {
    12 + 9 * level
}

/// Bytes mapped by a leaf installed at `level`: `2^(12 + 9 * level)`.
pub open spec fn spec_page_size(level: nat) -> u64 {
    if level == 0 {
        0x1000
    } else if level == 1 {
        0x20_0000
    } else if level == 2 {
        0x4000_0000
    } else if level == 3 {
        0x80_0000_0000
    } else {
        0x1_0000_0000_0000
    }
}

/// The page sizes are exactly the powers of two that shift by the page shift.
pub proof fn lemma_page_size_is_shift(level: nat)
    requires
        level < MAX_LEVELS,
    ensures
        spec_page_size(level) == 1u64 << (spec_page_shift(level) as u64),
        spec_page_size(level) != 0,
        spec_page_size(level) & ((spec_page_size(level) - 1) as u64) == 0,
{
    assert((0x1000u64 == 1u64 << 12u64) && (0x1000u64 & 0xfffu64 == 0) && (0x20_0000u64 == 1u64 << 21u64) && (0x20_0000u64 & 0x1f_ffffu64 == 0) && (0x4000_0000u64 == 1u64 << 30u64) && (0x4000_0000u64 & 0x3fff_ffffu64 == 0) && (0x80_0000_0000u64 == 1u64 << 39u64) && (0x80_0000_0000u64 & 0x7f_ffff_ffffu64 == 0) && (0x1_0000_0000_0000u64 == 1u64 << 48u64) && (0x1_0000_0000_0000u64 & 0xffff_ffff_ffffu64 == 0)) by (bit_vector);
}

/// Number of bytes mapped by a leaf entry installed at `level`
/// (4 KiB at level 0, 2 MiB at level 1, 1 GiB at level 2, and so on upward).
pub fn page_size_at(level: usize) -> (r: u64)
    requires
        level < MAX_LEVELS,
    ensures
        r == spec_page_size(level as nat),
{
    proof {
        lemma_page_size_is_shift(level as nat);
    }
    1u64 << (PAGE_OFFSET_BITS + VPN_BITS * (level as u64))
}

} // verus!
