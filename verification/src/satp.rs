//! The `satp` CSR: which page table is live, and in what translation mode.
//!
//! The RV64 layout is fixed by the privileged spec and does not vary with mode:
//!
//! ```text
//!   | MODE 63:60 | ASID 59:44 | PPN 43:0 |
//! ```

use vstd::prelude::*;

use crate::addr::{lemma_ppn_fits, spec_ppn, PhysicalAddr};
use crate::pte::lemma_target_of_aligned;
use crate::utils::{field, lemma_mask_values, spec_field, spec_with_field, with_field};

verus! {

/// Position of `satp.PPN` — the root table's physical page number.
pub const PPN_SHIFT: u64 = 0;

/// Position and width of `satp.ASID` — the address-space identifier.
pub const ASID_SHIFT: u64 = 44;

pub const ASID_BITS: u64 = 16;

/// Position and width of `satp.MODE` — the translation scheme.
pub const MODE_SHIFT: u64 = 60;

pub const MODE_BITS: u64 = 4;

/// Translation-mode encodings for `satp.MODE` on RV64.
///
/// Only the schemes the RISC-V privileged architecture defines; the remaining
/// encodings are reserved.
#[derive(Clone, Copy, PartialEq, Eq, Debug, Structural)]
pub enum Mode {
    /// No translation or protection: addresses are physical.
    Bare,
    /// 39-bit virtual addresses, three levels of page table.
    Sv39,
    /// 48-bit virtual addresses, four levels.
    Sv48,
    /// 57-bit virtual addresses, five levels.
    Sv57,
}

/// The `MODE` field value of a mode.
pub open spec fn spec_mode_bits(mode: Mode) -> u64 {
    match mode {
        Mode::Bare => 0,
        Mode::Sv39 => 8,
        Mode::Sv48 => 9,
        Mode::Sv57 => 10,
    }
}

/// The mode a `MODE` field value encodes, `None` for a reserved encoding.
pub open spec fn spec_mode_from_bits(bits: u64) -> Option<Mode> {
    if bits == 0 {
        Some(Mode::Bare)
    } else if bits == 8 {
        Some(Mode::Sv39)
    } else if bits == 9 {
        Some(Mode::Sv48)
    } else if bits == 10 {
        Some(Mode::Sv57)
    } else {
        None
    }
}

/// The number of page-table levels a mode walks.
pub open spec fn spec_mode_levels(mode: Mode) -> usize {
    match mode {
        Mode::Bare => 0,
        Mode::Sv39 => 3,
        Mode::Sv48 => 4,
        Mode::Sv57 => 5,
    }
}

/// The mode that walks `levels` levels, `None` if no encoding does.
pub open spec fn spec_mode_from_levels(levels: usize) -> Option<Mode> {
    if levels == 0 {
        Some(Mode::Bare)
    } else if levels == 3 {
        Some(Mode::Sv39)
    } else if levels == 4 {
        Some(Mode::Sv48)
    } else if levels == 5 {
        Some(Mode::Sv57)
    } else {
        None
    }
}

impl Mode {
    /// The raw `MODE` field value.
    pub fn bits(self) -> (r: u64)
        ensures
            r == spec_mode_bits(self),
    {
        match self {
            Mode::Bare => 0,
            Mode::Sv39 => 8,
            Mode::Sv48 => 9,
            Mode::Sv57 => 10,
        }
    }

    /// Decode a `MODE` field, or `None` for a reserved encoding.
    pub fn from_bits(bits: u64) -> (r: Option<Self>)
        ensures
            r == spec_mode_from_bits(bits),
    {
        match bits {
            0 => Some(Mode::Bare),
            8 => Some(Mode::Sv39),
            9 => Some(Mode::Sv48),
            10 => Some(Mode::Sv57),
            _ => None,
        }
    }

    /// Number of page-table levels this mode walks.
    pub fn levels(self) -> (r: usize)
        ensures
            r == spec_mode_levels(self),
    {
        match self {
            Mode::Bare => 0,
            Mode::Sv39 => 3,
            Mode::Sv48 => 4,
            Mode::Sv57 => 5,
        }
    }

    /// The mode that walks `levels` levels, or `None` if no encoding does.
    ///
    /// Searched over [`Mode::levels`] rather than written out inverted, so the
    /// mapping between the two exists once.
    pub fn from_levels(levels: usize) -> (r: Option<Self>)
        ensures
            r == spec_mode_from_levels(levels),
            r matches Some(m) ==> spec_mode_levels(m) == levels,
    {
        let all = [Mode::Bare, Mode::Sv39, Mode::Sv48, Mode::Sv57];
        let mut index: usize = 0;
        while index < 4
            invariant
                index <= 4,
                all@ == seq![Mode::Bare, Mode::Sv39, Mode::Sv48, Mode::Sv57],
                forall|j: int| 0 <= j < index ==> spec_mode_levels(#[trigger] all@[j]) != levels,
            decreases 4 - index,
        {
            let mode = all[index];
            if mode.levels() == levels {
                return Some(mode);
            }
            index += 1;
        }
        proof {
            assert(spec_mode_levels(all@[0]) != levels);
            assert(spec_mode_levels(all@[1]) != levels);
            assert(spec_mode_levels(all@[2]) != levels);
            assert(spec_mode_levels(all@[3]) != levels);
        }
        None
    }
}

/// Decoding a mode's encoding gives the mode back.
pub proof fn lemma_mode_bits_round_trip(mode: Mode)
    ensures
        spec_mode_from_bits(spec_mode_bits(mode)) == Some(mode),
        spec_mode_from_levels(spec_mode_levels(mode)) == Some(mode),
{
}

/// The root read back out of a `satp` value is the root composed into it: an aligned
/// root address within the 56-bit physical address space survives the trip through
/// its page number.
pub proof fn lemma_root_round_trip(root: u64)
    requires
        root & 0xfff == 0,
        root <= 0xff_ffff_ffff_ffff,
    ensures
        spec_ppn(root) << 12u64 == root,
{
    lemma_target_of_aligned(root);
}

/// The `satp` value with these three fields.
pub open spec fn spec_satp_bits(mode_bits: u64, asid: u64, ppn: u64) -> u64 {
    (mode_bits << 60u64) | (asid << 44u64) | ppn
}

/// A complete `satp` register value.
#[derive(Clone, Copy, PartialEq, Eq, Debug, Structural)]
pub struct Satp(pub u64);

impl Satp {
    /// Compose a `satp` value pointing `mode` translation at the root table in `root`,
    /// under address-space id `asid`.
    ///
    /// The root must be page-aligned (the register stores only a page number) and
    /// `asid` must fit its 16-bit field.
    pub fn new(mode: Mode, asid: u64, root: PhysicalAddr) -> (r: Self)
        requires
            root.0 & 0xfff == 0,
            asid >> 16u64 == 0,
        ensures
            r.0 == spec_satp_bits(spec_mode_bits(mode), asid, spec_ppn(root.0)),
            spec_field(r.0, 60, 4) == spec_mode_bits(mode),
            spec_field(r.0, 44, 16) == asid,
            spec_field(r.0, 0, 44) == spec_ppn(root.0),
    {
        let m = mode.bits();
        let p = root.ppn();
        let w = with_field(0, MODE_SHIFT, MODE_BITS, m) | with_field(0, ASID_SHIFT, ASID_BITS, asid)
            | with_field(0, PPN_SHIFT, 44, p);
        proof {
            lemma_mask_values();
            let a = root.0;
            assert(m <= 10);
            assert(asid >> 16u64 == 0 ==> asid < 0x1_0000) by (bit_vector);
            assert(((0u64 & !(0xfu64 << 60u64)) | ((m << 60u64) & (0xfu64 << 60u64))) | ((0u64 & !(
            0xffffu64 << 44u64)) | ((asid << 44u64) & (0xffffu64 << 44u64))) | ((0u64 & !(
            0xfff_ffff_ffffu64 << 0u64)) | ((((a >> 12u64) & 0xfff_ffff_ffffu64) << 0u64) & (
            0xfff_ffff_ffffu64 << 0u64))) == (m << 60u64) | (asid << 44u64) | ((a >> 12u64)
                & 0xfff_ffff_ffffu64)) by (bit_vector)
                requires
                    m <= 10,
                    asid >> 16u64 == 0,
            ;
            lemma_ppn_fits(root.0);
            lemma_satp_fields(m, asid, p);
        }
        Satp(w)
    }

    /// Sv39 translation through `root`, the common case for this kernel.
    pub fn sv39(root: PhysicalAddr, asid: u64) -> (r: Self)
        requires
            root.0 & 0xfff == 0,
            asid >> 16u64 == 0,
        ensures
            r.0 == spec_satp_bits(8, asid, spec_ppn(root.0)),
    {
        Self::new(Mode::Sv39, asid, root)
    }

    /// Translation off: physical addressing.
    pub fn bare() -> (r: Self)
        ensures
            r.0 == 0,
    {
        Satp(0)
    }

    /// Wrap a raw register value, e.g. one read back out of the CSR.
    pub fn from_bits(bits: u64) -> (r: Self)
        ensures
            r.0 == bits,
    {
        Satp(bits)
    }

    /// The raw value to write to the CSR.
    pub fn bits(self) -> (r: u64)
        ensures
            r == self.0,
    {
        self.0
    }

    /// The translation mode, or `None` if the field holds a reserved encoding.
    pub fn mode(self) -> (r: Option<Mode>)
        ensures
            r == spec_mode_from_bits(spec_field(self.0, 60, 4)),
    {
        Mode::from_bits(field(self.0, MODE_SHIFT, MODE_BITS))
    }

    /// The address-space identifier.
    pub fn asid(self) -> (r: u64)
        ensures
            r == spec_field(self.0, 44, 16),
    {
        field(self.0, ASID_SHIFT, ASID_BITS)
    }

    /// The root table's physical page number.
    pub fn ppn(self) -> (r: u64)
        ensures
            r == spec_field(self.0, 0, 44),
    {
        field(self.0, PPN_SHIFT, 44)
    }

    /// The root table's physical address.
    pub fn root(self) -> (r: PhysicalAddr)
        ensures
            r.0 == spec_field(self.0, 0, 44) << 12u64,
    {
        PhysicalAddr::from_ppn(self.ppn())
    }

    /// Replace the root page number, keeping mode and ASID.
    pub fn with_root(self, root: PhysicalAddr) -> (r: Self)
        requires
            root.0 & 0xfff == 0,
        ensures
            r.0 == spec_with_field(self.0, 0, 44, spec_ppn(root.0)),
            spec_field(r.0, 0, 44) == spec_ppn(root.0),
            spec_field(r.0, 44, 20) == spec_field(self.0, 44, 20),
    {
        let w = with_field(self.0, PPN_SHIFT, 44, root.ppn());
        proof {
            lemma_mask_values();
            let o = self.0;
            let a = root.0;
            assert((((o & !(0xfff_ffff_ffffu64 << 0u64)) | ((((a >> 12u64) & 0xfff_ffff_ffffu64)
                << 0u64) & (0xfff_ffff_ffffu64 << 0u64))) >> 0u64) & 0xfff_ffff_ffffu64 == (a
                >> 12u64) & 0xfff_ffff_ffffu64 && (((o & !(0xfff_ffff_ffffu64 << 0u64)) | ((((a >> 12u64)
                & 0xfff_ffff_ffffu64) << 0u64) & (0xfff_ffff_ffffu64 << 0u64))) >> 44u64) & (((1u64 << 20u64)
                - 1) as u64) == (o >> 44u64) & (((1u64 << 20u64) - 1) as u64)) by (bit_vector);
        }
        Satp(w)
    }
}

/// The three fields of a composed `satp` value decode back to what was composed:
/// none of them bleeds into another.
pub proof fn lemma_satp_fields(mode_bits: u64, asid: u64, ppn: u64)
    requires
        mode_bits < 16,
        asid < 0x1_0000,
        ppn <= 0xfff_ffff_ffff,
    ensures
        spec_field(spec_satp_bits(mode_bits, asid, ppn), 60, 4) == mode_bits,
        spec_field(spec_satp_bits(mode_bits, asid, ppn), 44, 16) == asid,
        spec_field(spec_satp_bits(mode_bits, asid, ppn), 0, 44) == ppn,
{
    lemma_mask_values();
    assert((((mode_bits << 60u64) | (asid << 44u64) | ppn) >> 60u64) & 0xfu64 == mode_bits
        && (((mode_bits << 60u64) | (asid << 44u64) | ppn) >> 44u64) & 0xffffu64 == asid
        && (((mode_bits << 60u64) | (asid << 44u64) | ppn) >> 0u64) & 0xfff_ffff_ffffu64 == ppn)
        by (bit_vector)
        requires
            mode_bits < 16,
            asid < 0x1_0000,
            ppn <= 0xfff_ffff_ffff,
    ;
}

} // verus!
