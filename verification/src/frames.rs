//! Where the frames holding intermediate page tables come from.
//!
//! The crate never allocates. A caller that maps anything below the root level
//! supplies somewhere for the intermediate tables to live.

use vstd::prelude::*;

use crate::addr::PhysicalAddr;

verus! {

/// Supplies and reclaims the frames that intermediate page tables live in.
///
/// A frame handed out must be page-aligned and not in use by the tree it is handed
/// to; a mapper refuses, as if the source were exhausted, a frame that is not.
pub trait FrameSource {
    /// Obtain a zeroed, page-aligned frame for a new page table.
    fn alloc_zeroed(&mut self) -> Option<PhysicalAddr>;

    /// Return a frame previously handed out by [`FrameSource::alloc_zeroed`].
    fn free(&mut self, frame: PhysicalAddr);
}

} // verus!
