//! Page-table entry type and permission flags.
//!
//! The entry format is the same in every scheme:
//!
//! ```text
//!   | PPN 53:10 | RSW 9:8 | D A G U X W R V |
//! ```

use vstd::prelude::*;

use crate::addr::{lemma_ppn_fits, spec_ppn, PhysicalAddr};
use crate::geometry::PPN_BITS;
use crate::utils::{field, lemma_mask_values, spec_field, spec_with_field, with_field};

verus! {

/// Bit position at which the PPN begins inside a PTE.
pub const PTE_PPN_SHIFT: u64 = 10;

/// Number of permission/status flag bits at the bottom of a PTE.
pub const FLAG_BITS: u64 = 8;

/// The low 8 permission and status bits of a page-table entry.
///
/// A *leaf* entry sets at least one of R/W/X; a *branch* (pointer to the next level)
/// sets none of them. `W` without `R` is a reserved encoding.
#[derive(Clone, Copy, PartialEq, Eq, Debug, Structural)]
pub struct PteFlags {
    pub bits: u64,
}

impl PteFlags {
    /// The flag set `VALID`.
    pub fn valid() -> (r: Self)
        ensures
            r.bits == 0x01,
    {
        PteFlags { bits: 0x01 }
    }

    /// The flag set `READ`.
    pub fn read() -> (r: Self)
        ensures
            r.bits == 0x02,
    {
        PteFlags { bits: 0x02 }
    }

    /// The flag set `WRITE`.
    pub fn write() -> (r: Self)
        ensures
            r.bits == 0x04,
    {
        PteFlags { bits: 0x04 }
    }

    /// The flag set `EXECUTE`.
    pub fn execute() -> (r: Self)
        ensures
            r.bits == 0x08,
    {
        PteFlags { bits: 0x08 }
    }

    /// The flag set `USER`.
    pub fn user() -> (r: Self)
        ensures
            r.bits == 0x10,
    {
        PteFlags { bits: 0x10 }
    }

    /// The flag set `GLOBAL`.
    pub fn global() -> (r: Self)
        ensures
            r.bits == 0x20,
    {
        PteFlags { bits: 0x20 }
    }

    /// The flag set `ACCESS`.
    pub fn access() -> (r: Self)
        ensures
            r.bits == 0x40,
    {
        PteFlags { bits: 0x40 }
    }

    /// The flag set `DIRTY`.
    pub fn dirty() -> (r: Self)
        ensures
            r.bits == 0x80,
    {
        PteFlags { bits: 0x80 }
    }

    /// The R/W/X permission bits. Their presence distinguishes leaf from branch.
    pub fn perms() -> (r: Self)
        ensures
            r.bits == 0x0e,
    {
        PteFlags { bits: 0x0e }
    }

    /// The flag set `READ + WRITE`.
    pub fn read_write() -> (r: Self)
        ensures
            r.bits == 0x06,
    {
        PteFlags { bits: 0x06 }
    }

    /// The flag set `READ + EXECUTE`.
    pub fn read_execute() -> (r: Self)
        ensures
            r.bits == 0x0a,
    {
        PteFlags { bits: 0x0a }
    }

    /// The flag set `READ + WRITE + EXECUTE`.
    pub fn read_write_execute() -> (r: Self)
        ensures
            r.bits == 0x0e,
    {
        PteFlags { bits: 0x0e }
    }

    /// The flag set `USER + READ + WRITE`.
    pub fn user_read_write() -> (r: Self)
        ensures
            r.bits == 0x16,
    {
        PteFlags { bits: 0x16 }
    }

    /// The flag set `USER + READ + EXECUTE`.
    pub fn user_read_execute() -> (r: Self)
        ensures
            r.bits == 0x1a,
    {
        PteFlags { bits: 0x1a }
    }

    /// The flag set `USER + READ + WRITE + EXECUTE`.
    pub fn user_read_write_execute() -> (r: Self)
        ensures
            r.bits == 0x1e,
    {
        PteFlags { bits: 0x1e }
    }

    /// No flags.
    pub fn empty() -> (r: Self)
        ensures
            r.bits == 0,
    {
        PteFlags { bits: 0 }
    }

    /// Every defined flag.
    pub fn all() -> (r: Self)
        ensures
            r.bits == 0xff,
    {
        PteFlags { bits: 0xff }
    }

    pub fn bits(self) -> (r: u64)
        ensures
            r == self.bits,
    {
        self.bits
    }

    /// Keep only the bits that name a flag.
    pub fn from_bits_truncate(bits: u64) -> (r: Self)
        ensures
            r.bits == bits & 0xff,
    {
        PteFlags { bits: bits & 0xff }
    }

    /// The flags with these bits, or `None` if a bit names no flag.
    pub fn from_bits(bits: u64) -> (r: Option<Self>)
        ensures
            r == (if bits & !0xffu64 == 0 {
                Some(PteFlags { bits })
            } else {
                None
            }),
    {
        if bits & !0xffu64 == 0 {
            Some(PteFlags { bits })
        } else {
            None
        }
    }

    /// Both sets of flags.
    pub fn union(self, other: Self) -> (r: Self)
        ensures
            r.bits == self.bits | other.bits,
    {
        PteFlags { bits: self.bits | other.bits }
    }

    /// Every flag of `other` is set here.
    pub fn contains(self, other: Self) -> (r: bool)
        ensures
            r == (self.bits & other.bits == other.bits),
    {
        self.bits & other.bits == other.bits
    }

    /// Some flag of `other` is set here.
    pub fn intersects(self, other: Self) -> (r: bool)
        ensures
            r == (self.bits & other.bits != 0),
    {
        self.bits & other.bits != 0
    }

    pub fn is_empty(self) -> (r: bool)
        ensures
            r == (self.bits == 0),
    {
        self.bits == 0
    }

    /// True if these flags describe a leaf mapping (any of R/W/X set).
    pub fn is_leaf(self) -> (r: bool)
        ensures
            r == spec_flags_leaf(self.bits),
    {
        self.bits & 0x0e != 0
    }

    /// True if the R/W/X combination is architecturally legal (W implies R).
    pub fn is_legal_leaf(self) -> (r: bool)
        ensures
            r == spec_flags_legal(self.bits),
            r == !(self.bits & 0x04 != 0 && self.bits & 0x02 == 0),
    {
        self.bits & 0x04 == 0 || self.bits & 0x02 != 0
    }
}

/// Any of R/W/X is set.
pub open spec fn spec_flags_leaf(bits: u64) -> bool {
    bits & 0x0e != 0
}

/// Write is set only together with read.
pub open spec fn spec_flags_legal(bits: u64) -> bool {
    bits & 0x04 == 0 || bits & 0x02 != 0
}

/// Leaf flags are legal exactly when write comes with read: a request with W (0x04)
/// set and R (0x02) clear, such as W|X, is reserved; every other is legal.
pub proof fn lemma_legal_is_write_implies_read(bits: u64)
    ensures
        spec_flags_legal(bits) == !(bits & 0x04 != 0 && bits & 0x02 == 0),
{
}

/// The 44-bit frame number stored in an entry word.
pub open spec fn spec_entry_ppn(bits: u64) -> u64 {
    spec_field(bits, 10, 44)
}

/// The entry word's valid bit is set.
pub open spec fn spec_entry_valid(bits: u64) -> bool {
    bits & 1 != 0
}

/// The leaf entry mapping the frame of `pa` with flag bits `flags` (plus `VALID`).
pub open spec fn spec_leaf_entry(pa: u64, flags: u64) -> Entry {
    Entry((spec_ppn(pa) << 10u64) | ((flags | 1) & 0xff))
}

/// The branch entry pointing at the table in the frame of `frame`.
pub open spec fn spec_branch_entry(frame: u64) -> Entry {
    Entry((spec_ppn(frame) << 10u64) | 1)
}

/// An entry word built from a 44-bit frame number and a flag byte gives both back,
/// and its flag bits say what the flag byte says.
pub proof fn lemma_compose_bits(ppn: u64, flag_bits: u64)
    requires
        ppn <= 0xfff_ffff_ffff,
    ensures
        spec_entry_ppn((ppn << 10u64) | (flag_bits & 0xff)) == ppn,
        ((ppn << 10u64) | (flag_bits & 0xff)) & 0xff == flag_bits & 0xff,
        spec_entry_valid((ppn << 10u64) | (flag_bits & 0xff)) == (flag_bits & 1 != 0),
        spec_flags_leaf((ppn << 10u64) | (flag_bits & 0xff)) == spec_flags_leaf(flag_bits),
        spec_flags_legal((ppn << 10u64) | (flag_bits & 0xff)) == spec_flags_legal(flag_bits),
{
    lemma_mask_values();
    assert(((((ppn << 10u64) | (flag_bits & 0xff)) >> 10u64) & 0xfff_ffff_ffffu64) == ppn
        && ((ppn << 10u64) | (flag_bits & 0xff)) & 0xff == flag_bits & 0xff && (((ppn << 10u64)
        | (flag_bits & 0xff)) & 1 != 0) == (flag_bits & 1 != 0) && (((ppn << 10u64) | (flag_bits
        & 0xff)) & 0x0e != 0) == (flag_bits & 0x0e != 0) && ((((ppn << 10u64) | (flag_bits & 0xff))
        & 0x04 == 0) || (((ppn << 10u64) | (flag_bits & 0xff)) & 0x02 != 0)) == ((flag_bits & 0x04
        == 0) || (flag_bits & 0x02 != 0))) by (bit_vector)
        requires
            ppn <= 0xfff_ffff_ffff,
    ;
}

/// The target of an entry pointing at an aligned frame in the 56-bit physical space
/// is that frame.
pub proof fn lemma_target_of_aligned(frame: u64)
    requires
        frame & 0xfff == 0,
        frame <= 0xff_ffff_ffff_ffff,
    ensures
        spec_branch_entry(frame).spec_target() == frame,
        spec_branch_entry(frame).spec_is_branch(),
        spec_ppn(frame) << 12u64 == frame,
{
    lemma_mask_values();
    assert((((((frame >> 12u64) & 0xfff_ffff_ffffu64) << 10u64) | 1) >> 10u64) & 0xfff_ffff_ffffu64
        == (frame >> 12u64) & 0xfff_ffff_ffffu64 && (((frame >> 12u64) & 0xfff_ffff_ffffu64) << 12u64) == frame
        && ((((frame >> 12u64) & 0xfff_ffff_ffffu64) << 10u64) | 1) & 1 != 0 && ((((frame >> 12u64)
        & 0xfff_ffff_ffffu64) << 10u64) | 1) & 0x0e == 0) by (bit_vector)
        requires
            frame & 0xfff == 0,
            frame <= 0xff_ffff_ffff_ffff,
    ;
}

/// The flag byte of an entry word, taken out by shift and mask, carries the word's
/// low bits.
proof fn lemma_flag_byte(b: u64)
    by (bit_vector)
    ensures
        ((b >> 0u64) & 0xffu64) & 0xffu64 == b & 0xff,
        (((b >> 0u64) & 0xffu64) & 1 != 0) == (b & 1 != 0),
        ((b & 0xff) & 0x0e != 0) == (b & 0x0e != 0),
{
}

/// A single page-table entry.
#[derive(Clone, Copy, PartialEq, Eq, Debug, Structural)]
pub struct Entry(pub u64);

impl Entry {
    /// A valid entry that maps a page (has R/W/X).
    pub open spec fn spec_is_leaf(self) -> bool {
        spec_entry_valid(self.0) && spec_flags_leaf(self.0)
    }

    /// A valid entry that points to a next-level table (no R/W/X).
    pub open spec fn spec_is_branch(self) -> bool {
        spec_entry_valid(self.0) && !spec_flags_leaf(self.0)
    }

    /// The page-aligned physical address this entry targets.
    pub open spec fn spec_target(self) -> u64 {
        spec_entry_ppn(self.0) << 12u64
    }

    /// An empty (invalid, all-zero) entry.
    pub fn empty() -> (r: Self)
        ensures
            r.0 == 0,
    {
        Entry(0)
    }

    /// Wrap a raw entry word.
    pub fn new(bits: u64) -> (r: Self)
        ensures
            r.0 == bits,
    {
        Entry(bits)
    }

    pub fn bits(self) -> (r: u64)
        ensures
            r == self.0,
    {
        self.0
    }

    /// The flag byte of the entry.
    pub fn flags(self) -> (r: PteFlags)
        ensures
            r.bits == self.0 & 0xff,
    {
        proof {
            lemma_mask_values();
            let b = self.0;
            lemma_flag_byte(b);
        }
        PteFlags::from_bits_truncate(field(self.0, 0, FLAG_BITS))
    }

    /// Replace the flag byte, keeping the frame number and the reserved bits.
    pub fn set_flags(&mut self, flags: PteFlags)
        ensures
            final(self).0 == spec_with_field(old(self).0, 0, 8, flags.bits),
            final(self).0 & 0xff == flags.bits & 0xff,
            final(self).0 & !0xffu64 == old(self).0 & !0xffu64,
    {
        let w = with_field(self.0, 0, FLAG_BITS, flags.bits);
        proof {
            lemma_mask_values();
            let o = self.0;
            let f = flags.bits;
            assert(((o & !(0xffu64 << 0u64)) | ((f << 0u64) & (0xffu64 << 0u64))) & 0xff == f & 0xff
                && ((o & !(0xffu64 << 0u64)) | ((f << 0u64) & (0xffu64 << 0u64))) & !0xffu64 == o
                & !0xffu64) by (bit_vector);
        }
        self.0 = w;
    }

    /// The full 44-bit physical page number this entry carries.
    pub fn ppn(self) -> (r: u64)
        ensures
            r == spec_entry_ppn(self.0),
    {
        field(self.0, PTE_PPN_SHIFT, PPN_BITS)
    }

    /// One Sv39 `PPN[level]` sub-field (level 2 is 26 bits wide, others 9).
    pub fn ppn_field(self, level: usize) -> (r: u64)
        requires
            level < 3,
        ensures
            r == spec_field(self.0, (10 + 9 * level) as u64, if level == 2 { 26 } else { 9 }),
    {
        let width = if level == 2 { 26 } else { 9 };
        field(self.0, PTE_PPN_SHIFT + 9 * (level as u64), width)
    }

    /// Store the physical frame `paddr` points into (its offset is ignored).
    pub fn set_ppn(&mut self, paddr: PhysicalAddr)
        ensures
            final(self).0 == spec_with_field(old(self).0, 10, 44, spec_ppn(paddr.0)),
            spec_entry_ppn(final(self).0) == spec_ppn(paddr.0),
            final(self).0 & 0x3ff == old(self).0 & 0x3ff,
    {
        let ppn = paddr.ppn();
        let w = with_field(self.0, PTE_PPN_SHIFT, PPN_BITS, ppn);
        proof {
            lemma_mask_values();
            let o = self.0;
            let a = paddr.0;
            assert(((((o & !(0xfff_ffff_ffffu64 << 10u64)) | ((((a >> 12u64) & 0xfff_ffff_ffffu64)
                << 10u64) & (0xfff_ffff_ffffu64 << 10u64))) >> 10u64) & 0xfff_ffff_ffffu64) == (a
                >> 12u64) & 0xfff_ffff_ffffu64 && ((o & !(0xfff_ffff_ffffu64 << 10u64)) | ((((a >> 12u64)
                & 0xfff_ffff_ffffu64) << 10u64) & (0xfff_ffff_ffffu64 << 10u64))) & 0x3ff == o & 0x3ff)
                by (bit_vector);
        }
        self.0 = w;
    }

    /// The page-aligned physical address this entry targets.
    pub fn target(self) -> (r: PhysicalAddr)
        ensures
            r.0 == self.spec_target(),
    {
        PhysicalAddr::from_ppn(self.ppn())
    }

    pub fn is_valid(self) -> (r: bool)
        ensures
            r == spec_entry_valid(self.0),
    {
        proof {
            lemma_mask_values();
            let b = self.0;
            lemma_flag_byte(b);
        }
        field(self.0, 0, FLAG_BITS) & PteFlags::valid().bits() != 0
    }

    /// A valid entry that maps a page (has R/W/X).
    pub fn is_leaf(self) -> (r: bool)
        ensures
            r == self.spec_is_leaf(),
    {
        proof {
            let b = self.0;
            lemma_flag_byte(b);
        }
        self.is_valid() && self.flags().is_leaf()
    }

    /// A valid entry that points to a next-level table (no R/W/X).
    pub fn is_branch(self) -> (r: bool)
        ensures
            r == self.spec_is_branch(),
    {
        proof {
            let b = self.0;
            lemma_flag_byte(b);
        }
        self.is_valid() && !self.flags().is_leaf()
    }

    /// A valid leaf mapping the frame `paddr` lies in with `flags`; `VALID` is added.
    pub fn leaf(paddr: PhysicalAddr, flags: PteFlags) -> (r: Self)
        ensures
            r == spec_leaf_entry(paddr.0, flags.bits),
            spec_entry_ppn(r.0) == spec_ppn(paddr.0),
            r.0 & 0xff == (flags.bits | 1) & 0xff,
            spec_entry_valid(r.0),
            spec_flags_leaf(r.0) == spec_flags_leaf(flags.bits),
            spec_flags_legal(r.0) == spec_flags_legal(flags.bits),
    {
        let ppn = paddr.ppn();
        proof {
            lemma_ppn_fits(paddr.0);
            let f = flags.bits;
            assert((f | 1) & 1 != 0 && ((f | 1) & 0x0e != 0) == (f & 0x0e != 0) && (((f | 1) & 0x04 == 0)
                || ((f | 1) & 0x02 != 0)) == ((f & 0x04 == 0) || (f & 0x02 != 0))) by (bit_vector);
        }
        Self::compose(ppn, flags.bits | 1)
    }

    /// A valid branch pointing at the table in `frame`.
    pub fn branch(frame: PhysicalAddr) -> (r: Self)
        ensures
            r == spec_branch_entry(frame.0),
            spec_entry_ppn(r.0) == spec_ppn(frame.0),
            r.0 & 0xff == 1,
            spec_entry_valid(r.0),
            !spec_flags_leaf(r.0),
    {
        let ppn = frame.ppn();
        proof {
            lemma_ppn_fits(frame.0);
            assert(1u64 & 0xff == 1 && 1u64 & 0x0e == 0 && 1u64 & 1 != 0) by (bit_vector);
        }
        Self::compose(ppn, 1)
    }

    /// An entry word carrying the 44-bit frame number `ppn` and the flag byte of `flag_bits`.
    fn compose(ppn: u64, flag_bits: u64) -> (r: Self)
        requires
            ppn <= 0xfff_ffff_ffff,
        ensures
            r.0 == (ppn << 10u64) | (flag_bits & 0xff),
            spec_entry_ppn(r.0) == ppn,
            r.0 & 0xff == flag_bits & 0xff,
            spec_entry_valid(r.0) == (flag_bits & 1 != 0),
            spec_flags_leaf(r.0) == spec_flags_leaf(flag_bits),
            spec_flags_legal(r.0) == spec_flags_legal(flag_bits),
    {
        let w = (ppn << PTE_PPN_SHIFT) | (flag_bits & 0xff);
        proof {
            lemma_compose_bits(ppn, flag_bits);
        }
        Entry(w)
    }
}

} // verus!
