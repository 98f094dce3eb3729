//! The translation schemes, and the single fact that distinguishes them.
//!
//! Sv39, Sv48 and Sv57 share a page size, a page-table shape, a PTE format and a
//! walk. They differ in how many levels that walk descends — and only in that, which
//! is why [`Scheme`] has exactly one required item and derives the rest.

use vstd::prelude::*;

use crate::addr::{
    canonicalize_at, is_canonical_at, lemma_low_bits_keep_vpn, spec_canonicalize, spec_is_canonical, spec_vpn,
    VirtualAddr,
};
use crate::geometry::{page_size_at, spec_page_size, MAX_LEVELS, ROOT_ENTRIES_PER_HALF};
use crate::satp::{spec_mode_from_levels, Mode};

verus! {

/// One RV64 translation scheme: a walk of 3, 4 or 5 levels.
///
/// Everything but [`Scheme::levels`] is derived from it and should not be overridden.
pub trait Scheme {
    /// Page-table levels a walk descends.
    spec fn spec_levels() -> nat;

    /// Page-table levels a walk descends: 3, 4 or 5, the counts a `satp.MODE` selects.
    fn levels() -> (r: usize)
        ensures
            r == Self::spec_levels(),
            3 <= r <= MAX_LEVELS,
    ;

    /// The level count is one that a `satp.MODE` selects.
    proof fn lemma_levels()
        ensures
            3 <= Self::spec_levels() <= MAX_LEVELS,
    ;

    /// Index of the root level, where every walk begins.
    fn root_level() -> (r: usize)
        ensures
            r == Self::spec_levels() - 1,
    {
        Self::levels() - 1
    }

    /// Significant bits in a virtual address: 39, 48 or 57.
    fn va_bits() -> (r: u64)
        ensures
            r == 12 + 9 * Self::spec_levels(),
    {
        12 + 9 * (Self::levels() as u64)
    }

    /// The `satp.MODE` encoding that selects this scheme.
    fn mode() -> (r: Mode)
        ensures
            spec_mode_from_levels(Self::spec_levels() as usize) == Some(r),
    {
        match Mode::from_levels(Self::levels()) {
            Some(mode) => mode,
            None => Mode::Sv39,
        }
    }

    /// Bytes mapped by one root-level leaf: 1 GiB under Sv39, 512 GiB under Sv48.
    fn root_page() -> (r: u64)
        ensures
            r == spec_page_size((Self::spec_levels() - 1) as nat),
    {
        page_size_at(Self::levels() - 1)
    }

    /// Bytes of virtual address space in one canonical half.
    fn half_span() -> (r: u64)
        ensures
            r == 256 * spec_page_size((Self::spec_levels() - 1) as nat),
    {
        let page = Self::root_page();
        (ROOT_ENTRIES_PER_HALF as u64) * page
    }

    /// True if `va`'s top bits are a correct sign extension of bit `va_bits - 1`.
    fn is_canonical(va: VirtualAddr) -> (r: bool)
        ensures
            r == spec_is_canonical(va.0, (12 + 9 * Self::spec_levels()) as u64),
    {
        let levels = Self::levels();
        is_canonical_at(va.0, 12 + 9 * (levels as u64))
    }

    /// Sign-extend bit `va_bits - 1` across the bits above it.
    fn canonicalize(va: VirtualAddr) -> (r: VirtualAddr)
        ensures
            r.0 == spec_canonicalize(va.0, (12 + 9 * Self::spec_levels()) as u64),
            spec_is_canonical(r.0, (12 + 9 * Self::spec_levels()) as u64),
            r.0 & (u64::MAX >> ((64 - (12 + 9 * Self::spec_levels())) as u64)) == va.0 & (u64::MAX >> ((64
                - (12 + 9 * Self::spec_levels())) as u64)),
            spec_is_canonical(va.0, (12 + 9 * Self::spec_levels()) as u64) ==> r == va,
            forall|l: nat| l < Self::spec_levels() ==> #[trigger] spec_vpn(r.0, l) == spec_vpn(va.0, l),
    {
        let levels = Self::levels();
        let r = VirtualAddr(canonicalize_at(va.0, 12 + 9 * (levels as u64)));
        proof {
            assert forall|l: nat| l < Self::spec_levels() implies #[trigger] spec_vpn(r.0, l) == spec_vpn(va.0, l) by {
                lemma_low_bits_keep_vpn(r.0, va.0, (12 + 9 * Self::spec_levels()) as u64, l);
            }
        }
        r
    }
}

/// The page-table index `va` selects at `level`, held to the scheme's own depth.
pub fn vpn<S: Scheme>(va: VirtualAddr, level: usize) -> (r: usize)
    requires
        level < S::spec_levels(),
    ensures
        r == spec_vpn(va.0, level as nat),
        r < 512,
{
    let _levels = S::levels();
    va.vpn(level)
}

/// 39-bit virtual addresses, three levels, 1 GiB root leaves.
#[derive(Clone, Copy, Debug)]
pub struct Sv39;

impl Scheme for Sv39 {
    open spec fn spec_levels() -> nat {
        3
    }

    proof fn lemma_levels() {
    }

    fn levels() -> (r: usize) {
        3
    }
}

/// 48-bit virtual addresses, four levels, 512 GiB root leaves.
#[derive(Clone, Copy, Debug)]
pub struct Sv48;

impl Scheme for Sv48 {
    open spec fn spec_levels() -> nat {
        4
    }

    proof fn lemma_levels() {
    }

    fn levels() -> (r: usize) {
        4
    }
}

/// 57-bit virtual addresses, five levels, 256 TiB root leaves.
#[derive(Clone, Copy, Debug)]
pub struct Sv57;

impl Scheme for Sv57 {
    open spec fn spec_levels() -> nat {
        5
    }

    proof fn lemma_levels() {
    }

    fn levels() -> (r: usize) {
        5
    }
}

} // verus!
