//! How a physical frame is reached from kernel context: the address at which the
//! kernel finds the frame at a given physical address.

use vstd::prelude::*;

use crate::addr::PhysicalAddr;

verus! {

/// Physical addresses are usable directly: the kernel runs identity-mapped (early
/// boot, or host tests where a "physical address" is a host address).
#[derive(Clone, Copy, Debug, Default)]
pub struct Identity;

impl Identity {
    /// Where the frame at `pa` is reached: at `pa` itself.
    pub fn address(&self, pa: PhysicalAddr) -> (r: u64)
        ensures
            r == pa.0,
    {
        pa.bits()
    }
}

/// Physical memory is mapped at a fixed virtual offset, `VA = PA + offset`, as in a
/// higher-half kernel's view of RAM.
#[derive(Clone, Copy, Debug)]
pub struct LinearOffset(pub usize);

impl LinearOffset {
    /// Where the frame at `pa` is reached: `offset` past it, wrapping around the
    /// address space.
    pub fn address(&self, pa: PhysicalAddr) -> (r: u64)
        ensures
            r == (pa.0 + self.0) % 0x1_0000_0000_0000_0000,
    {
        pa.bits().wrapping_add(self.0 as u64)
    }
}

} // verus!
