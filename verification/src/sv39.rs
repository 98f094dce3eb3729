//! Sv39 paging mode: three levels of page tables over a 39-bit virtual address.
//!
//! ```text
//! Virtual address (39 significant bits, sign-extended to 64):
//!   | VPN[2] 38:30 | VPN[1] 29:21 | VPN[0] 20:12 | offset 11:0 |
//! Physical address (56 bits):
//!   | PPN[2] 55:30 | PPN[1] 29:21 | PPN[0] 20:12 | offset 11:0 |
//! Page-table entry:
//!   | PPN[2] 53:28 | PPN[1] 27:19 | PPN[0] 18:10 | RSW | DAGUXWRV |
//! ```

use vstd::prelude::*;

use crate::geometry::{spec_page_size, PAGE_OFFSET_BITS, VPN_BITS};

verus! {

/// Number of page-table levels walked (Sv39 → 3).
pub const LEVELS: usize = 3;

/// Index of the root level, where every table walk begins.
pub const ROOT_LEVEL: usize = 2;

/// Number of significant bits in an Sv39 virtual address.
pub const VA_BITS: u64 = 39;

/// Width of `PPN[level]`: `PPN[2]` is wider, to reach the 56-bit physical space.
pub fn ppn_field_bits(level: usize) -> (r: u64)
    requires
        level < LEVELS,
    ensures
        r == (if level == 2 { 26u64 } else { 9u64 }),
{
    if level == 2 {
        26
    } else {
        9
    }
}

/// Number of bytes mapped by a leaf entry installed at `level`
/// (4 KiB at level 0, 2 MiB at level 1, 1 GiB at level 2).
pub fn page_size_at(level: usize) -> (r: u64)
    requires
        level < LEVELS,
    ensures
        r == spec_page_size(level as nat),
{
    proof {
        crate::geometry::lemma_page_size_is_shift(level as nat);
    }
    1u64 << (PAGE_OFFSET_BITS + VPN_BITS * (level as u64))
}

} // verus!
